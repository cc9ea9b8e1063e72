use svu::ignore::{gitignore_entry, join_paths, Ignore};
use svu::prefix::{parse_prefix, Prefix, PrefixError, Prefixes};

fn strings(v: &[&str]) -> Vec<String> {
    v.iter().map(|s| s.to_string()).collect()
}

#[test]
fn parse_prefix_accepts_rooted_paths() {
    assert_eq!(parse_prefix("^/branches"), Ok("branches".to_string()));
    assert_eq!(parse_prefix("^/old/branches//"), Ok("old/branches".to_string()));
    assert_eq!(parse_prefix("branches"), Err(PrefixError::NotRooted));
    assert_eq!(parse_prefix("^"), Err(PrefixError::NotRooted));
    assert_eq!(parse_prefix("^/"), Err(PrefixError::RepositoryRoot));
    assert_eq!(PrefixError::NotRooted.message(), "Prefix must begin with '^/'");
}

#[test]
fn prefix_apply_adds_removes_and_falls_back() {
    let mut p = Prefixes {
        trunk_prefix: "trunk".to_string(),
        branch_prefixes: strings(&["branches"]),
        tag_prefixes: strings(&["tags"]),
    };
    let change = Prefix {
        add_branch: strings(&["old", "branches"]),
        rem_branch: vec![],
        add_tag: vec![],
        rem_tag: strings(&["tags"]),
        set_trunk: Some("main".to_string()),
    };
    assert!(change.apply(&mut p));
    assert_eq!(p.trunk_prefix, "main");
    assert_eq!(p.branch_prefixes, strings(&["branches", "old"]));
    assert_eq!(p.tag_prefixes, strings(&["tags"]));
    let none = Prefix { add_branch: vec![], rem_branch: vec![], add_tag: vec![], rem_tag: vec![], set_trunk: None };
    assert!(!none.apply(&mut p));
    assert_eq!(p.branch_prefixes, strings(&["branches", "old"]));
}

#[test]
fn join_paths_uses_one_slash() {
    assert_eq!(join_paths("a/b/", "/c/"), "a/b/c");
    assert_eq!(join_paths("a", "c"), "a/c");
    assert_eq!(join_paths(".", "**"), "./**");
}

#[test]
fn gitignore_entries_are_rooted() {
    assert_eq!(gitignore_entry("./build", 2, true), "/build/");
    assert_eq!(gitignore_entry("./src/a.o", 2, false), "/src/a.o");
}

#[test]
fn ignore_lines_are_trimmed_without_blanks() {
    let lines = Ignore::ignore_lines("  target \n\n*.o\r\n   \nbuild/");
    assert_eq!(lines, strings(&["target", "*.o", "build/"]));
    assert!(Ignore::ignore_lines("").is_empty());
}

#[test]
fn get_ignores_decodes_output_of_a_successful_command() {
    assert_eq!(Ignore::get_ignores(true, &b"a\nb".to_vec()), Some("a\nb".to_string()));
    assert_eq!(Ignore::get_ignores(true, &vec![0x61, 0xff]), Some("a\u{fffd}".to_string()));
    assert_eq!(Ignore::get_ignores(false, &b"a".to_vec()), None);
}

#[test]
fn working_directory_needs_root_and_dir_kind() {
    assert!(Ignore::is_working_directory(&Some("/wc".to_string()), "dir"));
    assert!(!Ignore::is_working_directory(&Some("/wc".to_string()), "file"));
    assert!(!Ignore::is_working_directory(&None, "dir"));
}

#[test]
fn ignore_args_pick_the_property() {
    assert_eq!(Ignore::ignore_args(&".".to_string(), false), strings(&["pget", "svn:ignore", "."]));
    assert_eq!(
        Ignore::ignore_args(&"x".to_string(), true),
        strings(&["pget", "svn:global-ignores", "x"])
    );
}
