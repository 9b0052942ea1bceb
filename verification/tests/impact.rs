use trail::changes::{changes_query, get_changes_between, holds_text};
use trail::ids::CommitHash;
use trail::impact::{
    get_commits_affecting_files, is_affected, logged_commits, range_argument, touches, Candidate,
};

fn hash(text: &str) -> CommitHash {
    CommitHash::new(text.to_string())
}

fn candidate(commit: &str, report: Option<&str>) -> Candidate {
    Candidate { commit: hash(commit), report: report.map(String::from) }
}

fn paths(all: &[&str]) -> Vec<String> {
    all.iter().map(|p| p.to_string()).collect()
}

#[test]
fn affecting_commits_keep_the_order_of_the_candidates() {
    let candidates = vec![
        candidate("c1", Some("c1\nsrc/a.rs\n")),
        candidate("c2", Some("c2\nsrc/b.rs\n")),
        candidate("c3", Some("c3\nsrc/a.rs\nsrc/b.rs\n")),
        candidate("c4", Some("c4\nREADME\n")),
        candidate("c5", Some("c5\nsrc/c.rs\nsrc/a.rs\n")),
    ];
    assert_eq!(
        get_commits_affecting_files(&candidates, &paths(&["src/a.rs"])),
        vec![hash("c1"), hash("c3"), hash("c5")]
    );
    assert_eq!(
        get_commits_affecting_files(&candidates, &paths(&["src/b.rs", "README"])),
        vec![hash("c2"), hash("c3"), hash("c4")]
    );
}

#[test]
fn failed_query_removes_only_its_own_commit() {
    let fileset = paths(&["src/a.rs"]);
    let all = vec![
        candidate("c1", Some("src/a.rs\n")),
        candidate("c2", Some("src/a.rs\n")),
        candidate("c3", Some("src/a.rs\n")),
    ];
    assert_eq!(get_commits_affecting_files(&all, &fileset), vec![hash("c1"), hash("c2"), hash("c3")]);
    let one_failed = vec![
        candidate("c1", Some("src/a.rs\n")),
        candidate("c2", None),
        candidate("c3", Some("src/a.rs\n")),
    ];
    assert_eq!(get_commits_affecting_files(&one_failed, &fileset), vec![hash("c1"), hash("c3")]);
    let without = vec![candidate("c1", Some("src/a.rs\n")), candidate("c3", Some("src/a.rs\n"))];
    assert_eq!(
        get_commits_affecting_files(&one_failed, &fileset),
        get_commits_affecting_files(&without, &fileset)
    );
}

#[test]
fn nothing_affects_an_empty_fileset() {
    let candidates = vec![candidate("c1", Some("src/a.rs\n")), candidate("c2", Some(""))];
    assert_eq!(get_commits_affecting_files(&candidates, &Vec::new()), Vec::new());
    assert_eq!(get_commits_affecting_files(&Vec::new(), &paths(&["a"])), Vec::new());
}

#[test]
fn touches_reads_the_report_line_by_line() {
    let fileset = paths(&["src/a.rs", "docs/b.md"]);
    assert!(touches("0123abcd\nsrc/a.rs\n", &fileset));
    assert!(touches("\n\n  docs/b.md", &fileset));
    assert!(touches("x\r\ndocs/b.md\r\n", &fileset));
    assert!(!touches("0123abcd\nsrc/a.rs.orig\n", &fileset));
    assert!(!touches("src/a.rs src/b.rs", &fileset));
    assert!(!touches("", &fileset));
    assert!(!touches("src/a.rs", &Vec::new()));
}

#[test]
fn logged_commits_lose_their_quotes() {
    assert_eq!(
        logged_commits("\"c3\"\n\"c2\"\n\"c1\"\n"),
        vec![hash("c3"), hash("c2"), hash("c1")]
    );
    assert_eq!(logged_commits("c3\nc2\n"), vec![hash("c3"), hash("c2")]);
    assert_eq!(logged_commits("\n  \n"), Vec::new());
    assert_eq!(logged_commits(""), Vec::new());
}

#[test]
fn range_argument_joins_with_two_dots() {
    assert_eq!(range_argument(&hash("aaa"), &hash("bbb")), "aaa..bbb");
}

#[test]
fn changes_query_asks_for_full_hashes_by_default() {
    assert_eq!(
        changes_query(&hash("aaa"), &hash("bbb"), None),
        vec!["log", "--no-merges", "--format=%H", "aaa..bbb"]
    );
}

#[test]
fn changes_query_takes_the_given_format() {
    let format = vec!["--format=%h".to_string(), "--reverse".to_string()];
    assert_eq!(
        changes_query(&hash("aaa"), &hash("bbb"), Some(&format)),
        vec!["log", "--no-merges", "--format=%h", "--reverse", "aaa..bbb"]
    );
    assert_eq!(
        changes_query(&hash("aaa"), &hash("bbb"), Some(&Vec::new())),
        vec!["log", "--no-merges", "aaa..bbb"]
    );
}

#[test]
fn listed_revisions_pass_over_blank_lines() {
    assert_eq!(get_changes_between("c3\nc2\n\n  \nc1\n"), vec!["c3", "c2", "c1"]);
    assert_eq!(get_changes_between(""), Vec::<String>::new());
    assert_eq!(get_changes_between("\n\n"), Vec::<String>::new());
    assert_eq!(get_changes_between(" c1 "), vec![" c1 "]);
}

#[test]
fn holds_text_tells_blank_from_filled() {
    assert!(holds_text("a"));
    assert!(holds_text("  a  "));
    assert!(!holds_text(""));
    assert!(!holds_text(" \t"));
}

#[test]
fn is_affected_needs_a_report_that_lists_a_path_of_the_set() {
    let fileset = paths(&["src/a.rs"]);
    assert!(is_affected(&candidate("c1", Some("c1\nsrc/a.rs\n")), &fileset));
    assert!(!is_affected(&candidate("c1", Some("c1\nsrc/b.rs\n")), &fileset));
    assert!(!is_affected(&candidate("c1", None), &fileset));
    assert!(!is_affected(&candidate("src/a.rs", None), &fileset));
}

#[test]
fn many_candidates_keep_their_order() {
    let fileset = paths(&["wanted"]);
    let mut candidates = Vec::new();
    let mut expected = Vec::new();
    for i in 0..20000 {
        let name = format!("c{}", i);
        if i % 3 == 0 {
            candidates.push(candidate(&name, Some("wanted\nother\n")));
            expected.push(hash(&name));
        } else if i % 3 == 1 {
            candidates.push(candidate(&name, Some("other\n")));
        } else {
            candidates.push(candidate(&name, None));
        }
    }
    assert_eq!(get_commits_affecting_files(&candidates, &fileset), expected);
}
