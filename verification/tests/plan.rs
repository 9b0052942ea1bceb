use trail::branch_set::BranchSet;
use trail::ids::{Branch, CommitHash};
use trail::error::TrailError;
use trail::history::CommitNode;
use trail::plan::{render, EvolvePlan, Instruction, StackedCommit};

fn hash(text: &str) -> CommitHash {
    CommitHash::new(text.to_string())
}

fn branch(name: &str) -> Branch {
    Branch::new(name.to_string())
}

fn commit(id: &str, parent: &str, summary: &str, branches: &[&str]) -> StackedCommit {
    StackedCommit {
        node: CommitNode { commit: hash(id), parent: hash(parent) },
        summary: summary.to_string(),
        branches: branches.iter().map(|b| branch(b)).collect(),
    }
}

fn heads(containing_base: &[&str], containing_onto: &[&str]) -> BranchSet {
    let keep: Vec<Branch> = containing_base.iter().map(|b| branch(b)).collect();
    let drop: Vec<Branch> = containing_onto.iter().map(|b| branch(b)).collect();
    BranchSet::new(&keep, &drop)
}

#[test]
fn single_branch_three_commits_needs_no_reset_between_picks() {
    let base = hash("B");
    let onto = hash("O");
    let stack = vec![
        commit("c1", "B", "first", &[]),
        commit("c2", "c1", "second", &[]),
        commit("c3", "c2", "third", &["S"]),
    ];
    let plan = EvolvePlan { onto: &onto, base: &base };
    let script = plan.build(&heads(&["S"], &[]), &stack).unwrap();
    assert_eq!(
        script,
        "label B\n\
         pick c1 first\n\
         label c1\n\
         pick c2 second\n\
         label c2\n\
         pick c3 third\n\
         label c3\n\
         exec git branch -f S\n\
         reset B"
    );
}

#[test]
fn fork_resets_to_the_shared_commit_before_the_second_lineage() {
    let base = hash("B");
    let onto = hash("O");
    let stack = vec![
        commit("F", "B", "fork", &[]),
        commit("X1", "F", "on x", &["X"]),
        commit("Y1", "F", "on y", &["Y"]),
    ];
    let plan = EvolvePlan { onto: &onto, base: &base };
    let steps = plan.instructions(&heads(&["Y", "X"], &[]), &stack).unwrap();
    assert_eq!(
        steps,
        vec![
            Instruction::Label(hash("B")),
            Instruction::Pick(hash("F"), "fork".to_string()),
            Instruction::Label(hash("F")),
            Instruction::Pick(hash("X1"), "on x".to_string()),
            Instruction::Label(hash("X1")),
            Instruction::BranchUpdate(branch("X")),
            Instruction::Reset(hash("F")),
            Instruction::Pick(hash("Y1"), "on y".to_string()),
            Instruction::Label(hash("Y1")),
            Instruction::BranchUpdate(branch("Y")),
            Instruction::Reset(hash("B")),
        ]
    );
    assert_eq!(
        render(&steps),
        "label B\npick F fork\nlabel F\npick X1 on x\nlabel X1\nexec git branch -f X\n\
         reset F\npick Y1 on y\nlabel Y1\nexec git branch -f Y\nreset B"
    );
}

#[test]
fn empty_stack_is_bracketed_by_the_base() {
    let base = hash("B");
    let onto = hash("O");
    let plan = EvolvePlan { onto: &onto, base: &base };
    let steps = plan.instructions(&heads(&[], &[]), &Vec::new()).unwrap();
    assert_eq!(steps, vec![Instruction::Label(hash("B")), Instruction::Reset(hash("B"))]);
    let plan = EvolvePlan { onto: &onto, base: &base };
    assert_eq!(plan.build(&heads(&[], &[]), &Vec::new()).unwrap(), "label B\nreset B");
}

#[test]
fn unknown_parent_is_an_inconsistent_history() {
    let base = hash("B");
    let onto = hash("O");
    let stack = vec![commit("c1", "B", "first", &[]), commit("c2", "zz", "second", &[])];
    let plan = EvolvePlan { onto: &onto, base: &base };
    assert_eq!(
        plan.instructions(&heads(&["S"], &[]), &stack),
        Err(TrailError::InconsistentHistory)
    );
    let plan = EvolvePlan { onto: &onto, base: &base };
    assert_eq!(plan.build(&heads(&["S"], &[]), &stack), Err(TrailError::InconsistentHistory));
}

#[test]
fn parent_listed_later_is_an_inconsistent_history() {
    let base = hash("B");
    let onto = hash("O");
    let stack = vec![commit("c2", "c1", "second", &[]), commit("c1", "B", "first", &[])];
    let plan = EvolvePlan { onto: &onto, base: &base };
    assert_eq!(plan.build(&heads(&[], &[]), &stack), Err(TrailError::InconsistentHistory));
}

#[test]
fn branch_reachable_from_onto_gets_no_update() {
    let base = hash("B");
    let onto = hash("O");
    let stack = vec![commit("c1", "B", "first", &["kept", "merged"])];
    let set = heads(&["kept", "merged"], &["merged", "main"]);
    assert!(set.contains(&branch("kept")));
    assert!(!set.contains(&branch("merged")));
    assert!(!set.contains(&branch("main")));
    let plan = EvolvePlan { onto: &onto, base: &base };
    assert_eq!(
        plan.build(&set, &stack).unwrap(),
        "label B\npick c1 first\nlabel c1\nexec git branch -f kept\nreset B"
    );
}

#[test]
fn updates_follow_the_order_of_the_branch_set() {
    let base = hash("B");
    let onto = hash("O");
    let stack = vec![commit("c1", "B", "s", &["zeta", "alpha", "mid"])];
    let plan = EvolvePlan { onto: &onto, base: &base };
    assert_eq!(
        plan.build(&heads(&["mid", "zeta", "alpha", "mid"], &[]), &stack).unwrap(),
        "label B\npick c1 s\nlabel c1\nexec git branch -f alpha\nexec git branch -f mid\n\
         exec git branch -f zeta\nreset B"
    );
}

#[test]
fn reset_to_the_base_for_a_second_lineage_from_the_base() {
    let base = hash("B");
    let onto = hash("O");
    let stack = vec![commit("a1", "B", "a", &["a"]), commit("b1", "B", "b", &["b"])];
    let plan = EvolvePlan { onto: &onto, base: &base };
    assert_eq!(
        plan.build(&heads(&["a", "b"], &[]), &stack).unwrap(),
        "label B\npick a1 a\nlabel a1\nexec git branch -f a\nreset B\npick b1 b\nlabel b1\n\
         exec git branch -f b\nreset B"
    );
}

#[test]
fn planning_twice_gives_the_same_script() {
    let base = hash("B");
    let onto = hash("O");
    let stack = vec![commit("F", "B", "fork", &[]), commit("X1", "F", "x", &["X"])];
    let first = EvolvePlan { onto: &onto, base: &base }.build(&heads(&["X", "Y"], &[]), &stack);
    let second = EvolvePlan { onto: &onto, base: &base }.build(&heads(&["Y", "X"], &[]), &stack);
    assert_eq!(first, second);
}

#[test]
fn instruction_lines() {
    assert_eq!(Instruction::Label(hash("abc")).to_line(), "label abc");
    assert_eq!(Instruction::Reset(hash("abc")).to_line(), "reset abc");
    assert_eq!(Instruction::Pick(hash("abc"), "fix a bug".to_string()).to_line(), "pick abc fix a bug");
    assert_eq!(Instruction::BranchUpdate(branch("topic")).to_line(), "exec git branch -f topic");
}

fn forked_stack() -> Vec<StackedCommit> {
    vec![
        commit("F", "B", "fork", &["F-head"]),
        commit("X1", "F", "x one", &[]),
        commit("X2", "X1", "x two", &["X"]),
        commit("Y1", "F", "y one", &["Y", "Y-too"]),
        commit("Z1", "B", "z one", &["Z"]),
    ]
}

#[test]
fn every_plan_is_bracketed_by_the_base() {
    let base = hash("B");
    let onto = hash("O");
    let set = heads(&["X", "Y", "Z", "F-head", "Y-too"], &[]);
    let steps = EvolvePlan { onto: &onto, base: &base }.instructions(&set, &forked_stack()).unwrap();
    assert_eq!(steps.first(), Some(&Instruction::Label(hash("B"))));
    assert_eq!(steps.last(), Some(&Instruction::Reset(hash("B"))));
    let script = EvolvePlan { onto: &onto, base: &base }.build(&set, &forked_stack()).unwrap();
    assert!(script.starts_with("label B\n"));
    assert!(script.ends_with("\nreset B"));
}

#[test]
fn each_commit_is_labeled_once_right_after_its_pick() {
    let base = hash("B");
    let onto = hash("O");
    let set = heads(&["X", "Y", "Z", "F-head", "Y-too"], &[]);
    let stack = forked_stack();
    let steps = EvolvePlan { onto: &onto, base: &base }.instructions(&set, &stack).unwrap();
    for entry in &stack {
        let label = Instruction::Label(entry.node.commit.clone());
        let places: Vec<usize> =
            (0..steps.len()).filter(|k| steps[*k] == label).collect();
        assert_eq!(places.len(), 1);
        let pick = Instruction::Pick(entry.node.commit.clone(), entry.summary.clone());
        assert_eq!(steps[places[0] - 1], pick);
    }
    for k in 0..steps.len() {
        if let Instruction::Pick(commit, _) = &steps[k] {
            assert_eq!(steps[k + 1], Instruction::Label(commit.clone()));
        }
    }
    assert_eq!(
        render(&steps),
        "label B\n\
         pick F fork\nlabel F\nexec git branch -f F-head\n\
         pick X1 x one\nlabel X1\n\
         pick X2 x two\nlabel X2\nexec git branch -f X\n\
         reset F\n\
         pick Y1 y one\nlabel Y1\nexec git branch -f Y\nexec git branch -f Y-too\n\
         reset B\n\
         pick Z1 z one\nlabel Z1\nexec git branch -f Z\n\
         reset B"
    );
}

#[test]
fn commit_listed_twice_is_labeled_twice() {
    let base = hash("B");
    let onto = hash("O");
    let stack = vec![commit("c1", "B", "first", &[]), commit("c1", "B", "first", &[])];
    let script = EvolvePlan { onto: &onto, base: &base }.build(&heads(&[], &[]), &stack).unwrap();
    assert_eq!(script, "label B\npick c1 first\nlabel c1\nreset B\npick c1 first\nlabel c1\nreset B");
}
