use svu::commands::{Bad, Good, Skip};
use svu::data::{BisectData, Class};
use svu::revision::{parse_revision, resolve_token, revisions_in_listing, skip_revisions, target_revision};
use svu::selector::{next, Outcome};
use svu::session::{Command, SessionError, SessionStore};

fn history() -> Vec<u64> {
    vec![100, 101, 102, 103, 104, 105]
}

fn sorted(v: &Vec<u64>) -> Vec<u64> {
    let mut s = v.clone();
    s.sort();
    s.dedup();
    s
}

#[test]
fn scenario_six_revisions_converges() {
    let h = history();
    let mut d = BisectData::new();
    d.mark_bad(105);
    d.mark_good(100);
    assert_eq!(next(&d, &h), Outcome::Instruction(103));
    d.mark_bad(103);
    assert_eq!(next(&d, &h), Outcome::Instruction(102));
    d.mark_good(101);
    assert_eq!(next(&d, &h), Outcome::Instruction(102));
    d.mark_bad(102);
    assert_eq!(next(&d, &h), Outcome::Converged(102));
}

#[test]
fn not_started_without_both_boundaries() {
    let h = history();
    let mut d = BisectData::new();
    assert_eq!(next(&d, &h), Outcome::NotStarted);
    d.mark_bad(105);
    assert_eq!(next(&d, &h), Outcome::NotStarted);
}

#[test]
fn reverse_orientation_searches_for_the_fix() {
    let h = history();
    let mut d = BisectData::new();
    d.mark_bad(100);
    d.mark_good(105);
    assert_eq!(next(&d, &h), Outcome::Instruction(103));
    d.mark_good(103);
    assert_eq!(next(&d, &h), Outcome::Instruction(102));
    d.mark_bad(102);
    d.mark_bad(101);
    assert_eq!(next(&d, &h), Outcome::Converged(102));
}

#[test]
fn gaps_in_history_are_not_candidates() {
    let h = vec![10, 14, 20, 31, 40];
    let mut d = BisectData::new();
    d.mark_good(10);
    d.mark_bad(40);
    // candidates 14, 20, 31: index 1
    assert_eq!(next(&d, &h), Outcome::Instruction(20));
}

#[test]
fn all_skipped_is_exhausted_and_reclassifying_ends_it() {
    let h = history();
    let mut d = BisectData::new();
    d.mark_good(100);
    d.mark_bad(105);
    d.mark_skipped_revisions(&vec![101, 102, 103, 104]);
    assert_eq!(next(&d, &h), Outcome::Exhausted);
    let mut lowest_bad = BisectData::new();
    lowest_bad.mark_good(100);
    lowest_bad.mark_bad(105);
    lowest_bad.mark_skipped_revisions(&vec![101, 102, 103, 104]);
    assert_eq!(lowest_bad.mark_bad(101), Some(Class::Skipped));
    assert_eq!(next(&lowest_bad, &h), Outcome::Converged(101));
    assert_eq!(d.mark_good(104), Some(Class::Skipped));
    assert_eq!(next(&d, &h), Outcome::Converged(105));
}

#[test]
fn skip_avoids_skipped_candidates() {
    let h = history();
    let mut d = BisectData::new();
    d.mark_good(100);
    d.mark_bad(105);
    d.mark_skipped(103);
    // candidates 101, 102, 104: index 1
    assert_eq!(next(&d, &h), Outcome::Instruction(102));
}

#[test]
fn reclassification_reports_prior_class_and_keeps_sets_disjoint() {
    let mut d = BisectData::new();
    assert_eq!(d.mark_good(7), None);
    assert_eq!(d.mark_bad(7), Some(Class::Good));
    assert_eq!(d.mark_skipped(7), Some(Class::Bad));
    assert_eq!(d.class_of(7), Some(Class::Skipped));
    assert!(!d.good.contains(&7));
    assert!(!d.bad.contains(&7));
    assert_eq!(d.skip, vec![7]);
    assert_eq!(d.mark_good(7), Some(Class::Skipped));
    assert!(d.skip.is_empty());
    assert_eq!(d.good, vec![7]);
    d.mark_good(7);
    assert_eq!(d.good, vec![7]);
}

#[test]
fn reset_then_load_is_empty() {
    let mut store = SessionStore::new();
    store.apply(&Command::Start, "svu bisect start".to_string()).unwrap();
    store.apply(&Command::Bad(9), "svu bisect bad 9".to_string()).unwrap();
    assert!(!store.load().is_empty());
    store.apply(&Command::Reset, "svu bisect reset".to_string()).unwrap();
    assert!(!store.is_active());
    assert!(store.load().is_empty());
    let mut d = store.load();
    d.mark_good(3);
    d.reset();
    assert!(d.is_empty());
}

#[test]
fn apply_reports_the_prior_class() {
    let mut store = SessionStore::new();
    store.apply(&Command::Start, "start".to_string()).unwrap();
    assert_eq!(store.apply(&Command::Good(5), "good 5".to_string()), Ok(None));
    assert_eq!(store.apply(&Command::Bad(5), "bad 5".to_string()), Ok(Some(Class::Good)));
    assert_eq!(store.apply(&Command::Skip(vec![5]), "skip 5".to_string()), Ok(None));
    assert_eq!(store.apply(&Command::Good(5), "good 5".to_string()), Ok(Some(Class::Skipped)));
}

#[test]
fn commands_need_a_session() {
    let mut store = SessionStore::new();
    assert_eq!(
        store.apply(&Command::Good(5), "svu bisect good 5".to_string()),
        Err(SessionError::NoActiveSession)
    );
    assert_eq!(
        store.apply(&Command::Skip(vec![5]), "svu bisect skip 5".to_string()),
        Err(SessionError::NoActiveSession)
    );
    assert!(!store.is_active());
}

#[test]
fn log_records_each_command_line() {
    let mut store = SessionStore::new();
    store.apply(&Command::Start, "start".to_string()).unwrap();
    store.apply(&Command::Good(1), "good 1".to_string()).unwrap();
    store.apply(&Command::Skip(vec![2, 3]), "skip 2:3".to_string()).unwrap();
    let d = store.load();
    assert_eq!(d.log, vec!["start".to_string(), "good 1".to_string(), "skip 2:3".to_string()]);
    let mut again = d.duplicate();
    again.append_log("# next".to_string());
    assert_eq!(again.log.len(), 4);
    assert_eq!(d.log.len(), 3);
}

#[test]
fn replay_reproduces_the_live_session() {
    let cmds = || {
        vec![
            Command::Start,
            Command::Bad(105),
            Command::Good(100),
            Command::Skip(vec![103]),
            Command::Bad(102),
        ]
    };
    let lines: Vec<String> = vec!["start", "bad 105", "good 100", "skip 103", "bad 102"]
        .into_iter()
        .map(|s| s.to_string())
        .collect();
    let mut live = SessionStore::new();
    for (c, l) in cmds().iter().zip(lines.iter()) {
        live.apply(c, l.clone()).unwrap();
    }
    let mut replayed = SessionStore::new();
    replayed.apply(&Command::Start, "start".to_string()).unwrap();
    replayed.apply(&Command::Good(50), "good 50".to_string()).unwrap();
    assert_eq!(replayed.replay(&cmds(), &lines), Ok(()));
    let a = live.load();
    let b = replayed.load();
    assert_eq!(sorted(&a.good), sorted(&b.good));
    assert_eq!(sorted(&a.bad), sorted(&b.bad));
    assert_eq!(sorted(&a.skip), sorted(&b.skip));
    assert_eq!(a.log, lines);
    assert_eq!(b.log, lines);
}

#[test]
fn replay_stops_at_first_refusal() {
    let mut store = SessionStore::new();
    let cmds = vec![Command::Good(1), Command::Start];
    let lines = vec!["good 1".to_string(), "start".to_string()];
    assert_eq!(store.replay(&cmds, &lines), Err((0, SessionError::NoActiveSession)));
    assert!(!store.is_active());
}

#[test]
fn save_replaces_the_session() {
    let mut store = SessionStore::new();
    let mut d = BisectData::new();
    d.mark_bad(4);
    store.save(d);
    assert!(store.is_active());
    assert_eq!(store.load().bad, vec![4]);
    store.reset();
    assert!(!store.is_active());
}

#[test]
fn parse_revision_reads_decimal_numbers() {
    assert_eq!(parse_revision("0"), Some(0));
    assert_eq!(parse_revision("1234"), Some(1234));
    assert_eq!(parse_revision("18446744073709551615"), Some(u64::MAX));
    assert_eq!(parse_revision("18446744073709551616"), None);
    assert_eq!(parse_revision(""), None);
    assert_eq!(parse_revision("12a"), None);
    assert_eq!(parse_revision("-1"), None);
    assert_eq!(parse_revision("HEAD"), None);
}

#[test]
fn ranges_resolve_against_history_in_either_order() {
    let h = vec![3, 5, 8, 13, 21];
    assert_eq!(resolve_token("5:13", &h), Some(vec![5, 8, 13]));
    assert_eq!(resolve_token("13:5", &h), Some(vec![5, 8, 13]));
    assert_eq!(resolve_token("4:7", &h), Some(vec![5]));
    assert_eq!(resolve_token("7", &h), Some(vec![7]));
    assert_eq!(resolve_token("5:", &h), None);
    assert_eq!(resolve_token("1:2:3", &h), None);
    assert_eq!(resolve_token("x", &h), None);
}

#[test]
fn skip_defaults_to_working_copy_revision() {
    let h = vec![3, 5, 8, 13, 21];
    assert_eq!(skip_revisions(&vec![], 8, &h), Ok(vec![8]));
    let toks = vec!["3".to_string(), "8:21".to_string()];
    assert_eq!(skip_revisions(&toks, 8, &h), Ok(vec![3, 8, 13, 21]));
    let bad = vec!["3".to_string(), "nope".to_string()];
    assert_eq!(skip_revisions(&bad, 8, &h), Err(SessionError::InvalidRevision));
}

#[test]
fn good_and_bad_default_to_working_copy_revision() {
    assert_eq!(target_revision(&None, 42), Ok(42));
    assert_eq!(target_revision(&Some("17".to_string()), 42), Ok(17));
    assert_eq!(target_revision(&Some("r17".to_string()), 42), Err(SessionError::InvalidRevision));
    assert!(matches!(Good { revision: None }.command(9), Ok(Command::Good(9))));
    assert!(matches!(Bad { revision: Some("4".to_string()) }.command(9), Ok(Command::Bad(4))));
    assert!(matches!(
        Bad { revision: Some("?".to_string()) }.command(9),
        Err(SessionError::InvalidRevision)
    ));
    let skip = Skip { revisions: vec!["8:13".to_string()] };
    match skip.command(1, &vec![3, 5, 8, 13, 21]) {
        Ok(Command::Skip(v)) => assert_eq!(v, vec![8, 13]),
        _ => panic!("expected a skip command"),
    }
}

#[test]
fn bisection_converges_within_logarithmic_steps() {
    for n in 1u64..=40 {
        // history 0..=n+1 with revision 0 good and n+1 bad: n candidates
        let h: Vec<u64> = (0..=n + 1).collect();
        let mut k = 0u32;
        while (1u64 << k) <= n {
            k += 1;
        }
        for t in 1..=n + 1 {
            let mut d = BisectData::new();
            d.mark_good(0);
            d.mark_bad(n + 1);
            let mut steps = 0u32;
            loop {
                match next(&d, &h) {
                    Outcome::Instruction(r) => {
                        if r < t {
                            d.mark_good(r);
                        } else {
                            d.mark_bad(r);
                        }
                        steps += 1;
                    }
                    other => {
                        assert_eq!(other, Outcome::Converged(t));
                        break;
                    }
                }
            }
            assert!(steps <= k, "n={} t={} steps={}", n, t, steps);
        }
    }
}

#[test]
fn reverse_orientation_skip_exclusion() {
    let h = history();
    let mut d = BisectData::new();
    d.mark_bad(100);
    d.mark_good(105);
    d.mark_skipped_revisions(&vec![101, 102, 103, 104]);
    assert_eq!(next(&d, &h), Outcome::Exhausted);
    let mut e = d.duplicate();
    e.mark_good(101);
    assert_eq!(next(&e, &h), Outcome::Converged(100));
    d.mark_bad(104);
    assert_eq!(next(&d, &h), Outcome::Converged(104));
}

#[test]
fn is_disjoint_detects_overlap() {
    let mut d = BisectData::new();
    d.mark_good(1);
    d.mark_bad(2);
    assert!(d.is_disjoint());
    d.bad.push(1);
    assert!(!d.is_disjoint());
}

#[test]
fn history_listing_gives_revisions_in_order() {
    let text = "------------------------------------------------------------------------\n\
                r12 | alice | 2020-01-01 10:00:00 +0000 (Wed, 01 Jan 2020)\n\
                ------------------------------------------------------------------------\n\
                r15 | bob | 2020-01-02 10:00:00 +0000 (Thu, 02 Jan 2020)\n\
                ------------------------------------------------------------------------\n\
                r20\n\
                rx | nobody\n\
                r21x | nobody\n";
    assert_eq!(revisions_in_listing(text), vec![12, 15, 20]);
    assert!(revisions_in_listing("").is_empty());
}
