use trail::branch_set::{branches_of_listing, holds, BranchSet};
use trail::error::TrailError;
use trail::ids::{Branch, CommitHash};

fn branch(name: &str) -> Branch {
    Branch::new(name.to_string())
}

fn branches(names: &[&str]) -> Vec<Branch> {
    names.iter().map(|n| branch(n)).collect()
}

fn names(set: &BranchSet) -> Vec<String> {
    set.names().iter().map(|b| b.to_string()).collect()
}

#[test]
fn branch_set_is_the_sorted_difference() {
    let set = BranchSet::new(&branches(&["topic", "main", "fix", "alpha"]), &branches(&["main"]));
    assert_eq!(names(&set), vec!["alpha", "fix", "topic"]);
    assert_eq!(set.len(), 3);
}

#[test]
fn branch_set_lists_each_branch_once() {
    let set = BranchSet::new(&branches(&["b", "a", "b", "a", "c", "b"]), &Vec::new());
    assert_eq!(names(&set), vec!["a", "b", "c"]);
}

#[test]
fn branch_set_agrees_with_a_sorted_set() {
    let keep = ["zeta", "Alpha", "beta", "beta2", "be", "", "ümlaut", "zeta", "main"];
    let drop = ["main", "other", "be"];
    let set = BranchSet::new(&branches(&keep), &branches(&drop));
    let all: std::collections::BTreeSet<Branch> = branches(&keep).into_iter().collect();
    let excluded: std::collections::BTreeSet<Branch> = branches(&drop).into_iter().collect();
    let expected: Vec<String> = all.difference(&excluded).map(|b| b.to_string()).collect();
    assert_eq!(names(&set), expected);
}

#[test]
fn branch_set_of_nothing_is_empty() {
    let set = BranchSet::new(&Vec::new(), &branches(&["main"]));
    assert_eq!(set.len(), 0);
    assert!(!set.contains(&branch("main")));
}

#[test]
fn branch_set_all_excluded() {
    let set = BranchSet::new(&branches(&["a", "b"]), &branches(&["b", "a", "c"]));
    assert_eq!(set.len(), 0);
}

#[test]
fn holds_finds_a_branch_by_name() {
    let list = branches(&["a", "b"]);
    assert!(holds(&list, &branch("a")));
    assert!(holds(&list, &branch("b")));
    assert!(!holds(&list, &branch("c")));
    assert!(!holds(&Vec::new(), &branch("a")));
}

#[test]
fn listing_gives_one_branch_per_line() {
    assert_eq!(branches_of_listing("main\ntopic\nfix/one\n"), branches(&["main", "topic", "fix/one"]));
    assert_eq!(branches_of_listing(""), Vec::new());
}

#[test]
fn listing_passes_over_a_detached_head() {
    assert_eq!(
        branches_of_listing("(HEAD detached at 1a2b3c4)\nmain\ntopic\n"),
        branches(&["main", "topic"])
    );
    assert_eq!(branches_of_listing("(HEAD detached from origin/main)"), Vec::new());
}

#[test]
fn commit_reads_the_listing_of_its_branches() {
    let commit = CommitHash::new("0123abcd".to_string());
    let listing = "(HEAD detached at 0123abc)\nmain\ntopic\n";
    assert_eq!(commit.branches(listing), branches(&["main", "topic"]));
    assert_eq!(commit.branches_containing_revision(listing), branches(&["main", "topic"]));
    assert_eq!(commit.branches(""), Vec::new());
}

#[test]
fn patch_id_is_the_first_word_printed() {
    let commit = CommitHash::new("0123abcd".to_string());
    assert_eq!(
        commit.get_patch_id("f00dfeed 0123abcd\n"),
        Some("f00dfeed".to_string())
    );
    assert_eq!(commit.get_patch_id("\n"), None);
    assert_eq!(commit.get_patch_id(""), None);
}

#[test]
fn resolve_takes_a_local_branch_by_its_name() {
    assert_eq!(Branch::resolve("topic", true, &Vec::new()), Ok(branch("topic")));
    assert_eq!(Branch::resolve("topic", true, &branches(&["a", "b"])), Ok(branch("topic")));
}

#[test]
fn resolve_takes_the_one_branch_that_points_at_a_revision() {
    assert_eq!(Branch::resolve("1a2b3c4", false, &branches(&["topic"])), Ok(branch("topic")));
}

#[test]
fn resolve_fails_where_nothing_matches() {
    assert_eq!(Branch::resolve("nothing", false, &Vec::new()), Err(TrailError::NotFound));
}

#[test]
fn resolve_fails_where_several_match() {
    assert_eq!(
        Branch::resolve("1a2b3c4", false, &branches(&["a", "b"])),
        Err(TrailError::Ambiguous)
    );
}

#[test]
fn error_messages() {
    assert_eq!(TrailError::NotFound.to_string(), "no such revision or branch");
    assert_eq!(
        TrailError::Ambiguous.to_string(),
        "the name matches more than one revision or branch"
    );
    assert_eq!(
        TrailError::InconsistentHistory.to_string(),
        "the history names a parent that was never labeled"
    );
}

#[test]
fn identifiers_keep_their_text() {
    let hash = CommitHash::new("0123abcd".to_string());
    assert_eq!(hash.to_string(), "0123abcd");
    assert_eq!(hash.as_ref(), "0123abcd");
    assert_eq!(hash.clone(), hash);
    assert!(hash.same(&CommitHash::new("0123abcd".to_string())));
    assert!(!hash.same(&CommitHash::new("0123abce".to_string())));
    assert_eq!(hash.into(), "0123abcd");
    assert_eq!(CommitHash::default().to_string(), "");
    let b = branch("topic");
    assert_eq!(b.to_string(), "topic");
    assert_eq!(b.as_ref(), "topic");
    assert_eq!(b.clone(), b);
    assert!(b.same(&branch("topic")));
    assert!(!b.same(&branch("topic2")));
    assert_eq!(b.into(), "topic");
}

#[test]
fn hash_from_output_drops_the_white_space_around_it() {
    assert_eq!(CommitHash::from_output("0123abcd\n"), CommitHash::new("0123abcd".to_string()));
    assert_eq!(CommitHash::from_output("  0123abcd \r\n"), CommitHash::new("0123abcd".to_string()));
    assert_eq!(CommitHash::from_output(""), CommitHash::default());
}

#[test]
fn local_ref_is_under_refs_heads() {
    assert_eq!(Branch::local_ref("topic"), "refs/heads/topic");
    assert_eq!(Branch::local_ref("fix/one"), "refs/heads/fix/one");
}

#[test]
fn printed_names_lose_the_white_space_around_them() {
    let commit = CommitHash::new("0123abcd".to_string());
    assert_eq!(commit.get_name_rev("0123abcd topic~2\n"), "0123abcd topic~2");
    assert_eq!(commit.get_short_hash("0123abc\n"), "0123abc");
    assert_eq!(commit.get_commit_message_short("Fix the  parser \n"), "Fix the  parser");
    assert_eq!(commit.get_commit_message_short(""), "");
    assert_eq!(trail::answers::get_repo_root("/home/me/repo\n"), "/home/me/repo");
    assert_eq!(trail::answers::get_merge_base("0123abcd\n"), commit);
    assert_eq!(trail::answers::multi_merge_base(" 0123abcd \n"), commit);
    assert_eq!(trail::answers::get_merge_base(""), CommitHash::default());
}

#[test]
fn printed_lists_are_read_line_by_line() {
    assert_eq!(trail::answers::branches("* main\n  topic\n"), vec!["* main", "  topic"]);
    assert_eq!(trail::answers::branches(""), Vec::<String>::new());
    assert_eq!(
        trail::answers::get_branches_containing_head("main\ntopic\n"),
        vec!["main", "topic"]
    );
}
