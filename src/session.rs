use vstd::prelude::*;
use crate::data::{BisectData, BisectView, Class, empty_view};

verus! {

broadcast use vstd::seq_lib::group_seq_properties;

/// Why a session command was refused.
#[derive(Clone, Copy, Debug, PartialEq, Eq, Structural)]
pub enum SessionError {
    /// A command that needs a session ran before `start`.
    NoActiveSession,
    /// A revision token named no revision.
    InvalidRevision,
}

/// A bisect session command with its revisions resolved.
pub enum Command {
    Start,
    Good(u64),
    Bad(u64),
    Skip(Vec<u64>),
    Reset,
}

/// The session that a store holds, if one was started: `None` when there is none.
pub struct SessionStore {
    pub session: Option<BisectData>,
}

/// What `load` hands back for a store whose session is `st`.
pub open spec fn loaded(st: Option<BisectView>) -> BisectView {
    match st {
        Some(v) => v,
        None => empty_view(),
    }
}

/// The store after one command, recorded as `line`, or why it was refused.
pub open spec fn step(st: Option<BisectView>, cmd: Command, line: Seq<char>) -> Result<
    Option<BisectView>,
    SessionError,
> {
    match cmd {
        Command::Start => Ok(Some(empty_view().with_line(line))),
        Command::Reset => Ok(None),
        Command::Good(r) => match st {
            Some(v) => Ok(Some(v.with_good(r).with_line(line))),
            None => Err(SessionError::NoActiveSession),
        },
        Command::Bad(r) => match st {
            Some(v) => Ok(Some(v.with_bad(r).with_line(line))),
            None => Err(SessionError::NoActiveSession),
        },
        Command::Skip(revs) => match st {
            Some(v) => Ok(Some(v.with_all_skipped(revs@).with_line(line))),
            None => Err(SessionError::NoActiveSession),
        },
    }
}

/// The store after the commands `cmds`, recorded as `lines`, run in order;
/// the first refusal ends the run.
pub open spec fn run(st: Option<BisectView>, cmds: Seq<Command>, lines: Seq<Seq<char>>) -> Result<
    Option<BisectView>,
    SessionError,
>
    decreases cmds.len(),
{
    if cmds.len() == 0 || lines.len() == 0 {
        Ok(st)
    } else {
        match step(st, cmds[0], lines[0]) {
            Ok(next) => run(next, cmds.drop_first(), lines.drop_first()),
            Err(e) => Err(e),
        }
    }
}

/// The class that a `good` or `bad` command takes its revision out of, if any.
pub open spec fn prior_class(st: Option<BisectView>, cmd: Command) -> Option<Class> {
    match (st, cmd) {
        (Some(v), Command::Good(r)) => v.class_of(r),
        (Some(v), Command::Bad(r)) => v.class_of(r),
        _ => None,
    }
}

impl SessionStore {
    pub open spec fn view(&self) -> Option<BisectView> {
        match self.session {
            Some(d) => Some(d.view()),
            None => None,
        }
    }

    /// A store with no session in it.
    pub fn new() -> (r: SessionStore)
        ensures
            r.view() is None,
    {
        SessionStore { session: None }
    }

    /// Whether a session has been started.
    pub fn is_active(&self) -> (r: bool)
        ensures
            r == self.view() is Some,
    {
        self.session.is_some()
    }

    /// The current session, or the empty state when none was started.
    pub fn load(&self) -> (r: BisectData)
        ensures
            r.view() == loaded(self.view()),
    {
        match &self.session {
            Some(d) => d.duplicate(),
            None => BisectData::new(),
        }
    }

    /// Replaces the stored session by `data`.
    pub fn save(&mut self, data: BisectData)
        ensures
            final(self).view() == Some(data.view()),
    {
        self.session = Some(data);
    }

    /// Removes the session.
    pub fn reset(&mut self)
        ensures
            final(self).view() is None,
    {
        self.session = None;
    }

    /// Runs one command and records `line` in the log. A refused command
    /// leaves the store as it was. For `good` and `bad`, the result tells the
    /// class the revision held before, so that a changed verdict can be shown.
    pub fn apply(&mut self, cmd: &Command, line: String) -> (r: Result<Option<Class>, SessionError>)
        ensures
            match step(old(self).view(), *cmd, line@) {
                Ok(st) => r == Ok::<Option<Class>, SessionError>(prior_class(old(self).view(), *cmd))
                    && final(self).view() == st,
                Err(e) => r == Err::<Option<Class>, SessionError>(e) && final(self).view() == old(
                    self,
                ).view(),
            },
    {
        match cmd {
            Command::Start => {
                let mut d = BisectData::new();
                d.append_log(line);
                self.session = Some(d);
                Ok(None)
            },
            Command::Reset => {
                self.session = None;
                Ok(None)
            },
            Command::Good(rev) => match &mut self.session {
                Some(d) => {
                    let prior = d.mark_good(*rev);
                    d.append_log(line);
                    Ok(prior)
                },
                None => Err(SessionError::NoActiveSession),
            },
            Command::Bad(rev) => match &mut self.session {
                Some(d) => {
                    let prior = d.mark_bad(*rev);
                    d.append_log(line);
                    Ok(prior)
                },
                None => Err(SessionError::NoActiveSession),
            },
            Command::Skip(revs) => match &mut self.session {
                Some(d) => {
                    d.mark_skipped_revisions(revs);
                    d.append_log(line);
                    Ok(None)
                },
                None => Err(SessionError::NoActiveSession),
            },
        }
    }
}

/// The views of recorded lines.
pub open spec fn line_views(lines: Seq<String>) -> Seq<Seq<char>> {
    lines.map_values(|l: String| l@)
}

impl SessionStore {
    /// Runs the recorded commands `cmds`, each with its recorded line, in order,
    /// and stops at the first one refused, giving its position and the reason.
    pub fn replay(&mut self, cmds: &Vec<Command>, lines: &Vec<String>) -> (r: Result<
        (),
        (usize, SessionError),
    >)
        requires
            cmds@.len() == lines@.len(),
        ensures
            match run(old(self).view(), cmds@, line_views(lines@)) {
                Ok(st) => r is Ok && final(self).view() == st,
                Err(e) => r matches Err((k, e2)) && e2 == e && k < cmds@.len(),
            },
    {
        let ghost ls = line_views(lines@);
        assert(cmds@.subrange(0, cmds@.len() as int) == cmds@);
        assert(ls.subrange(0, ls.len() as int) == ls);
        let mut i: usize = 0;
        while i < cmds.len()
            invariant
                0 <= i <= cmds@.len(),
                cmds@.len() == lines@.len(),
                ls == line_views(lines@),
                run(old(self).view(), cmds@, ls) == run(
                    self.view(),
                    cmds@.subrange(i as int, cmds@.len() as int),
                    ls.subrange(i as int, ls.len() as int),
                ),
            decreases cmds.len() - i,
        {
            let ghost c = cmds@.subrange(i as int, cmds@.len() as int);
            let ghost l = ls.subrange(i as int, ls.len() as int);
            assert(c.drop_first() == cmds@.subrange(i + 1, cmds@.len() as int));
            assert(l.drop_first() == ls.subrange(i + 1, ls.len() as int));
            assert(c[0] == cmds@[i as int]);
            assert(l[0] == lines@[i as int]@);
            let line = lines[i].clone();
            match self.apply(&cmds[i], line) {
                Ok(_) => {},
                Err(e) => {
                    return Err((i, e));
                },
            }
            i = i + 1;
        }
        assert(run(self.view(), cmds@.subrange(i as int, cmds@.len() as int), ls.subrange(i as int, ls.len() as int)) == Ok::<Option<BisectView>, SessionError>(self.view()));
        Ok(())
    }
}

proof fn lemma_all_skipped_disjoint(v: BisectView, revs: Seq<u64>)
    requires
        v.disjoint(),
    ensures
        v.with_all_skipped(revs).disjoint(),
    decreases revs.len(),
{
    if revs.len() > 0 {
        lemma_all_skipped_disjoint(v, revs.drop_last());
    }
}

/// A single command keeps the three classifications pairwise disjoint.
pub proof fn lemma_step_disjoint(st: Option<BisectView>, cmd: Command, line: Seq<char>)
    requires
        st matches Some(v) ==> v.disjoint(),
    ensures
        step(st, cmd, line) matches Ok(Some(w)) ==> w.disjoint(),
{
    match cmd {
        Command::Skip(revs) => {
            if let Some(v) = st {
                lemma_all_skipped_disjoint(v, revs@);
            }
        },
        _ => {},
    }
}

/// After any sequence of commands, the good, bad and skipped revisions are
/// pairwise disjoint.
pub proof fn lemma_run_disjoint(st: Option<BisectView>, cmds: Seq<Command>, lines: Seq<Seq<char>>)
    requires
        st matches Some(v) ==> v.disjoint(),
    ensures
        run(st, cmds, lines) matches Ok(Some(w)) ==> w.disjoint(),
    decreases cmds.len(),
{
    if cmds.len() > 0 && lines.len() > 0 {
        lemma_step_disjoint(st, cmds[0], lines[0]);
        if let Ok(next) = step(st, cmds[0], lines[0]) {
            lemma_run_disjoint(next, cmds.drop_first(), lines.drop_first());
        }
    }
}

/// Whatever the store held, `reset` followed by `load` gives the empty state.
pub proof fn lemma_reset_then_load(st: Option<BisectView>, line: Seq<char>)
    ensures
        step(st, Command::Reset, line) is Ok,
        loaded(step(st, Command::Reset, line)->Ok_0) == empty_view(),
{
}

/// A recorded session that begins with `start` replays to the same state from
/// any store it is replayed on.
pub proof fn lemma_replay_fidelity(
    st0: Option<BisectView>,
    st1: Option<BisectView>,
    cmds: Seq<Command>,
    lines: Seq<Seq<char>>,
)
    requires
        cmds.len() > 0,
        lines.len() > 0,
        cmds[0] is Start,
    ensures
        run(st0, cmds, lines) == run(st1, cmds, lines),
{
}

/// Neither `start` nor `reset`.
pub open spec fn is_classifying(c: Command) -> bool {
    !(c is Start) && !(c is Reset)
}

/// A session begun by `start`, whose later commands all classify, logs
/// exactly the lines of its commands, in order.
pub proof fn lemma_log_records_lines(st: Option<BisectView>, cmds: Seq<Command>, lines: Seq<Seq<char>>)
    requires
        cmds.len() == lines.len(),
        cmds.len() > 0,
        cmds[0] is Start,
        forall|i: int| 1 <= i < cmds.len() ==> is_classifying(#[trigger] cmds[i]),
    ensures
        run(st, cmds, lines) == Ok::<Option<BisectView>, SessionError>(Some(
            run(st, cmds, lines)->Ok_0->Some_0,
        )),
        run(st, cmds, lines)->Ok_0->Some_0.log == lines,
{
    lemma_log_tail(empty_view().with_line(lines[0]), cmds.drop_first(), lines.drop_first());
    assert(seq![lines[0]] + lines.drop_first() == lines);
}

proof fn lemma_log_tail(v: BisectView, cmds: Seq<Command>, lines: Seq<Seq<char>>)
    requires
        cmds.len() == lines.len(),
        forall|i: int| 0 <= i < cmds.len() ==> is_classifying(#[trigger] cmds[i]),
    ensures
        run(Some(v), cmds, lines) is Ok,
        run(Some(v), cmds, lines)->Ok_0 is Some,
        run(Some(v), cmds, lines)->Ok_0->Some_0.log == v.log + lines,
    decreases cmds.len(),
{
    if cmds.len() == 0 {
        assert(v.log + lines == v.log);
    } else {
        assert(is_classifying(cmds[0]));
        let next = step(Some(v), cmds[0], lines[0])->Ok_0->Some_0;
        assert(next.log == v.log.push(lines[0])) by {
            match cmds[0] {
                Command::Skip(revs) => {
                    lemma_all_skipped_log(v, revs@);
                },
                _ => {},
            }
        }
        assert forall|i: int| 0 <= i < cmds.drop_first().len() implies is_classifying(
            #[trigger] cmds.drop_first()[i],
        ) by {
            assert(is_classifying(cmds[i + 1]));
        }
        lemma_log_tail(next, cmds.drop_first(), lines.drop_first());
        assert(v.log.push(lines[0]) + lines.drop_first() == v.log + lines);
    }
}

proof fn lemma_all_skipped_log(v: BisectView, revs: Seq<u64>)
    ensures
        v.with_all_skipped(revs).log == v.log,
    decreases revs.len(),
{
    if revs.len() > 0 {
        lemma_all_skipped_log(v, revs.drop_last());
    }
}

} // verus!
