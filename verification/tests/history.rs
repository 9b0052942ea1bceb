use trail::branch_set::BranchSet;
use trail::error::TrailError;
use trail::history::{parse_history, CommitNode};
use trail::ids::{Branch, CommitHash};
use trail::plan::EvolvePlan;

fn node(commit: &str, parent: &str) -> CommitNode {
    CommitNode {
        commit: CommitHash::new(commit.to_string()),
        parent: CommitHash::new(parent.to_string()),
    }
}

#[test]
fn history_lines_give_commit_and_first_parent() {
    let listing = "c1 b0\nc2 c1\nc3 c2\n";
    assert_eq!(
        parse_history(listing),
        Ok(vec![node("c1", "b0"), node("c2", "c1"), node("c3", "c2")])
    );
}

#[test]
fn further_parents_of_a_merge_are_passed_over() {
    assert_eq!(parse_history("m p1 p2 p3"), Ok(vec![node("m", "p1")]));
}

#[test]
fn empty_listing_is_an_empty_history() {
    assert_eq!(parse_history(""), Ok(Vec::new()));
}

#[test]
fn commit_without_parent_is_an_inconsistent_history() {
    assert_eq!(parse_history("c1 b0\nroot\n"), Err(TrailError::InconsistentHistory));
    assert_eq!(parse_history("root"), Err(TrailError::InconsistentHistory));
}

#[test]
fn blank_line_is_an_inconsistent_history() {
    assert_eq!(parse_history("c1 b0\n\nc2 c1\n"), Err(TrailError::InconsistentHistory));
    assert_eq!(parse_history("\n"), Err(TrailError::InconsistentHistory));
}

#[test]
fn history_lines_may_end_with_carriage_returns() {
    assert_eq!(parse_history("c1 b0\r\nc2 c1\r\n"), Ok(vec![node("c1", "b0"), node("c2", "c1")]));
}

#[test]
fn history_query_lists_heads_and_excludes_the_base() {
    let base = CommitHash::new("b0".to_string());
    let onto = CommitHash::new("o0".to_string());
    let keep = vec![Branch::new("topic".to_string()), Branch::new("fix".to_string())];
    let heads = BranchSet::new(&keep, &Vec::new());
    let plan = EvolvePlan { onto: &onto, base: &base };
    assert_eq!(
        plan.history_query(&heads),
        vec!["rev-list", "--reverse", "--topo-order", "--parents", "fix", "topic", "^b0"]
    );
}

#[test]
fn history_query_without_heads() {
    let base = CommitHash::new("b0".to_string());
    let onto = CommitHash::new("o0".to_string());
    let heads = BranchSet::new(&Vec::new(), &Vec::new());
    let plan = EvolvePlan { onto: &onto, base: &base };
    assert_eq!(
        plan.history_query(&heads),
        vec!["rev-list", "--reverse", "--topo-order", "--parents", "^b0"]
    );
}
