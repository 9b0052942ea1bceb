//! The replay plan: the instructions that move a stack of commits, and the
//! branches resting on them, onto a new base.

use vstd::prelude::*;
use crate::branch_set::{holds, names_of, BranchSet};
use crate::error::TrailError;
use crate::history::CommitNode;
use crate::ids::{Branch, CommitHash};
use crate::text::{join, joined, texts_of};
use vstd::string::StringExecFns;

verus! {

/// What the planner reads of one commit that is to be replayed.
#[derive(Debug, PartialEq, Eq)]
pub struct StackedCommit {
    /// The commit and its first parent.
    pub node: CommitNode,
    /// The commit's one-line summary.
    pub summary: String,
    /// The branches that point at the commit before the rewrite.
    pub branches: Vec<Branch>,
}

/// The mathematical content of a [`StackedCommit`].
pub struct StackedCommitView {
    pub commit: Seq<char>,
    pub parent: Seq<char>,
    pub summary: Seq<char>,
    pub branches: Seq<Seq<char>>,
}

impl View for StackedCommit {
    type V = StackedCommitView;

    open spec fn view(&self) -> StackedCommitView {
        StackedCommitView {
            commit: self.node.commit@,
            parent: self.node.parent@,
            summary: self.summary@,
            branches: names_of(self.branches@),
        }
    }
}

/// The contents of the commits in `s`, in the same order.
pub open spec fn stack_of(s: Seq<StackedCommit>) -> Seq<StackedCommitView> {
    s.map_values(|c: StackedCommit| c@)
}

/// One step of a replay.
#[derive(Debug, PartialEq, Eq)]
pub enum Instruction {
    /// Record the current position under a name.
    Label(CommitHash),
    /// Move to a position recorded earlier.
    Reset(CommitHash),
    /// Replay a commit; the text is its summary, for the reader only.
    Pick(CommitHash, String),
    /// Force a branch to the current position.
    BranchUpdate(Branch),
}

/// The mathematical content of an [`Instruction`].
pub enum InstructionView {
    Label(Seq<char>),
    Reset(Seq<char>),
    Pick(Seq<char>, Seq<char>),
    BranchUpdate(Seq<char>),
}

impl View for Instruction {
    type V = InstructionView;

    open spec fn view(&self) -> InstructionView {
        match self {
            Instruction::Label(name) => InstructionView::Label(name@),
            Instruction::Reset(name) => InstructionView::Reset(name@),
            Instruction::Pick(commit, summary) => InstructionView::Pick(commit@, summary@),
            Instruction::BranchUpdate(branch) => InstructionView::BranchUpdate(branch@),
        }
    }
}

/// The contents of the instructions in `s`, in the same order.
pub open spec fn steps_of(s: Seq<Instruction>) -> Seq<InstructionView> {
    s.map_values(|i: Instruction| i@)
}

/// The commit that the replay stands on before commit `i` is replayed: the
/// base at first, afterwards the commit replayed last.
pub open spec fn cursor_before(base: Seq<char>, stack: Seq<StackedCommitView>, i: int) -> Seq<char> {
    if i == 0 {
        base
    } else {
        stack[i - 1].commit
    }
}

/// Whether `target` has a label once the commits before `i` are replayed.
pub open spec fn labeled_before(
    base: Seq<char>,
    stack: Seq<StackedCommitView>,
    i: int,
    target: Seq<char>,
) -> bool {
    target == base || exists|j: int| 0 <= j < i && #[trigger] stack[j].commit == target
}

/// Whether every commit's parent has a label when the commit's turn comes.
pub open spec fn consistent(base: Seq<char>, stack: Seq<StackedCommitView>) -> bool {
    forall|i: int|
        0 <= i < stack.len() ==> labeled_before(base, stack, i, (#[trigger] stack[i]).parent)
}

/// The branches of `heads`, in the order of `heads`, that are among `at`.
pub open spec fn carried(heads: Seq<Seq<char>>, at: Seq<Seq<char>>) -> Seq<Seq<char>> {
    heads.filter(|b: Seq<char>| at.contains(b))
}

/// The branch updates that follow a commit at which the branches `at` point.
pub open spec fn updates_for(heads: Seq<Seq<char>>, at: Seq<Seq<char>>) -> Seq<InstructionView> {
    carried(heads, at).map_values(|b: Seq<char>| InstructionView::BranchUpdate(b))
}

/// The jump back to commit `i`'s parent, where the replay does not stand on
/// it already.
pub open spec fn anchor_for(base: Seq<char>, stack: Seq<StackedCommitView>, i: int) -> Seq<
    InstructionView,
> {
    if stack[i].parent != cursor_before(base, stack, i) {
        seq![InstructionView::Reset(stack[i].parent)]
    } else {
        Seq::empty()
    }
}

/// The instructions for commit `i`: the jump to its parent if one is needed,
/// the pick, the label, and the updates of the branches that rest on it.
pub open spec fn block_for(
    base: Seq<char>,
    heads: Seq<Seq<char>>,
    stack: Seq<StackedCommitView>,
    i: int,
) -> Seq<InstructionView> {
    anchor_for(base, stack, i) + seq![
        InstructionView::Pick(stack[i].commit, stack[i].summary),
        InstructionView::Label(stack[i].commit),
    ] + updates_for(heads, stack[i].branches)
}

/// The instructions for the first `n` commits.
pub open spec fn blocks_upto(
    base: Seq<char>,
    heads: Seq<Seq<char>>,
    stack: Seq<StackedCommitView>,
    n: nat,
) -> Seq<InstructionView>
    decreases n,
{
    if n == 0 {
        Seq::empty()
    } else {
        blocks_upto(base, heads, stack, (n - 1) as nat) + block_for(base, heads, stack, n - 1)
    }
}

/// The whole plan: the base's label, every commit's block in order, and the
/// return to the base.
pub open spec fn plan_of(base: Seq<char>, heads: Seq<Seq<char>>, stack: Seq<StackedCommitView>) -> Seq<
    InstructionView,
> {
    seq![InstructionView::Label(base)] + blocks_upto(base, heads, stack, stack.len())
        + seq![InstructionView::Reset(base)]
}

/// The line that writes one instruction for the rewrite engine.
pub open spec fn line_of(step: InstructionView) -> Seq<char> {
    match step {
        InstructionView::Label(name) => "label "@ + name,
        InstructionView::Reset(name) => "reset "@ + name,
        InstructionView::Pick(commit, summary) => "pick "@ + commit + " "@ + summary,
        InstructionView::BranchUpdate(branch) => "exec git branch -f "@ + branch,
    }
}

/// The script of a plan: one line for each instruction, joined by newlines.
pub open spec fn script_of(steps: Seq<InstructionView>) -> Seq<char> {
    joined(steps.map_values(|step: InstructionView| line_of(step)), "\n"@)
}

impl Instruction {
    /// The instruction as one line of a script.
    pub fn to_line(&self) -> (line: String)
        ensures
            line@ == line_of(self@),
    {
        match self {
            Instruction::Label(name) => String::from_str("label ").concat(name.as_ref().as_str()),
            Instruction::Reset(name) => String::from_str("reset ").concat(name.as_ref().as_str()),
            Instruction::Pick(commit, summary) => String::from_str("pick ").concat(
                commit.as_ref().as_str(),
            ).concat(" ").concat(summary.as_str()),
            Instruction::BranchUpdate(branch) => String::from_str("exec git branch -f ").concat(
                branch.as_ref().as_str(),
            ),
        }
    }
}

/// Writes a plan as a script: one line for each instruction, newline-joined,
/// with no newline after the last.
pub fn render(plan: &Vec<Instruction>) -> (script: String)
    ensures
        script@ == script_of(steps_of(plan@)),
{
    let mut lines: Vec<String> = Vec::new();
    let mut i: usize = 0;
    while i < plan.len()
        invariant
            i <= plan.len(),
            texts_of(lines@) == steps_of(plan@).take(i as int).map_values(
                |step: InstructionView| line_of(step),
            ),
        decreases plan.len() - i,
    {
        let ghost before = lines@;
        lines.push(plan[i].to_line());
        proof {
            assert(texts_of(lines@) =~= texts_of(before).push(line_of(plan@[i as int]@)));
            assert(steps_of(plan@).take(i + 1) =~= steps_of(plan@).take(i as int).push(
                plan@[i as int]@,
            ));
            assert(texts_of(lines@) =~= steps_of(plan@).take(i + 1).map_values(
                |step: InstructionView| line_of(step),
            ));
        }
        i += 1;
    }
    proof {
        assert(steps_of(plan@).take(plan@.len() as int) =~= steps_of(plan@));
    }
    join(&lines, "\n")
}

/// Whether `target` is the base or one of the first `i` commits of `stack`.
fn is_labeled(base: &CommitHash, stack: &Vec<StackedCommit>, i: usize, target: &CommitHash) -> (found: bool)
    requires
        i <= stack.len(),
    ensures
        found == labeled_before(base@, stack_of(stack@), i as int, target@),
{
    if target.same(base) {
        return true;
    }
    let mut j: usize = 0;
    while j < i
        invariant
            j <= i <= stack.len(),
            target@ != base@,
            forall|k: int| 0 <= k < j ==> (#[trigger] stack_of(stack@)[k]).commit != target@,
        decreases i - j,
    {
        if stack[j].node.commit.same(target) {
            assert(stack_of(stack@)[j as int].commit == target@);
            return true;
        }
        j += 1;
    }
    false
}

/// Appends to `plan` the update of every branch of `heads` that is among `at`.
fn push_updates(plan: &mut Vec<Instruction>, heads: &BranchSet, at: &Vec<Branch>)
    ensures
        steps_of(final(plan)@) == steps_of(old(plan)@) + updates_for(heads@, names_of(at@)),
{
    let ghost before = steps_of(plan@);
    let ghost pointed = names_of(at@);
    let branches = heads.names();
    let mut k: usize = 0;
    proof {
        reveal(Seq::filter);
        assert(heads@.take(0) =~= Seq::<Seq<char>>::empty());
        assert(updates_for(heads@.take(0), pointed) =~= Seq::<InstructionView>::empty());
        assert(steps_of(plan@) =~= before + updates_for(heads@.take(0), pointed));
    }
    while k < branches.len()
        invariant
            k <= heads@.len(),
            names_of(branches@) == heads@,
            pointed == names_of(at@),
            steps_of(plan@) == before + updates_for(heads@.take(k as int), pointed),
        decreases heads@.len() - k,
    {
        let branch = &branches[k];
        assert(names_of(branches@)[k as int] == branch@);
        let ghost seen = heads@.take(k as int);
        let ghost before_push = plan@;
        proof {
            assert(heads@.take(k + 1) =~= seen.push(heads@[k as int]));
            seen.lemma_filter_push(heads@[k as int], |b: Seq<char>| pointed.contains(b));
        }
        if holds(at, branch) {
            plan.push(Instruction::BranchUpdate(branch.clone()));
            proof {
                assert(carried(heads@.take(k + 1), pointed) == carried(seen, pointed).push(
                    heads@[k as int],
                ));
                assert(updates_for(heads@.take(k + 1), pointed) =~= updates_for(seen, pointed).push(
                    InstructionView::BranchUpdate(heads@[k as int]),
                ));
                assert(steps_of(plan@) =~= steps_of(before_push).push(
                    InstructionView::BranchUpdate(heads@[k as int]),
                ));
            }
        } else {
            proof {
                assert(carried(heads@.take(k + 1), pointed) == carried(seen, pointed));
            }
        }
        k += 1;
    }
    proof {
        assert(heads@.take(heads@.len() as int) =~= heads@);
    }
}

/// A rewrite of the stack that rests on `base`, to rest on `onto` instead.
pub struct EvolvePlan<'a> {
    pub onto: &'a CommitHash,
    pub base: &'a CommitHash,
}

impl<'a> EvolvePlan<'a> {
    /// The instructions that replay `stack` and move the branches of `heads`
    /// along. `stack` lists the commits to replay, oldest first.
    ///
    /// Fails exactly when some commit's parent is neither the base nor a
    /// commit listed before it: no label would exist to return to.
    pub fn instructions(&self, heads: &BranchSet, stack: &Vec<StackedCommit>) -> (r: Result<
        Vec<Instruction>,
        TrailError,
    >)
        ensures
            r is Ok <==> consistent(self.base@, stack_of(stack@)),
            r matches Ok(plan) ==> steps_of(plan@) == plan_of(self.base@, heads@, stack_of(stack@)),
            r matches Err(e) ==> e == TrailError::InconsistentHistory,
    {
        let ghost base = self.base@;
        let ghost model = stack_of(stack@);
        let mut plan: Vec<Instruction> = Vec::new();
        plan.push(Instruction::Label(self.base.clone()));
        proof {
            assert(steps_of(plan@) =~= seq![InstructionView::Label(base)] + blocks_upto(
                base,
                heads@,
                model,
                0,
            ));
        }
        let mut i: usize = 0;
        while i < stack.len()
            invariant
                i <= stack.len(),
                base == self.base@,
                model == stack_of(stack@),
                steps_of(plan@) == seq![InstructionView::Label(base)] + blocks_upto(
                    base,
                    heads@,
                    model,
                    i as nat,
                ),
                forall|k: int|
                    0 <= k < i ==> labeled_before(base, model, k, (#[trigger] model[k]).parent),
            decreases stack.len() - i,
        {
            let entry = &stack[i];
            let ghost done = steps_of(plan@);
            let on_cursor = if i == 0 {
                entry.node.parent.same(self.base)
            } else {
                entry.node.parent.same(&stack[i - 1].node.commit)
            };
            assert(on_cursor == (model[i as int].parent == cursor_before(base, model, i as int)));
            if !on_cursor {
                if !is_labeled(self.base, stack, i, &entry.node.parent) {
                    return Err(TrailError::InconsistentHistory);
                }
                plan.push(Instruction::Reset(entry.node.parent.clone()));
            } else {
                proof {
                    if i > 0 {
                        assert(model[i - 1].commit == model[i as int].parent);
                    }
                }
            }
            assert(labeled_before(base, model, i as int, model[i as int].parent));
            assert(steps_of(plan@) =~= done + anchor_for(base, model, i as int));
            plan.push(Instruction::Pick(entry.node.commit.clone(), entry.summary.clone()));
            plan.push(Instruction::Label(entry.node.commit.clone()));
            assert(steps_of(plan@) =~= done + anchor_for(base, model, i as int) + seq![
                InstructionView::Pick(model[i as int].commit, model[i as int].summary),
                InstructionView::Label(model[i as int].commit),
            ]);
            push_updates(&mut plan, heads, &entry.branches);
            assert(steps_of(plan@) =~= done + block_for(base, heads@, model, i as int));
            assert(steps_of(plan@) =~= seq![InstructionView::Label(base)] + blocks_upto(
                base,
                heads@,
                model,
                (i + 1) as nat,
            ));
            i += 1;
        }
        let ghost body = steps_of(plan@);
        plan.push(Instruction::Reset(self.base.clone()));
        assert(steps_of(plan@) =~= body + seq![InstructionView::Reset(base)]);
        Ok(plan)
    }

    /// The script that replays `stack` and moves the branches of `heads`
    /// along: the lines of [`EvolvePlan::instructions`], newline-joined.
    ///
    /// Fails exactly when some commit's parent is neither the base nor a
    /// commit listed before it.
    pub fn build(self, heads: &BranchSet, stack: &Vec<StackedCommit>) -> (r: Result<String, TrailError>)
        ensures
            r is Ok <==> consistent(self.base@, stack_of(stack@)),
            r matches Ok(script) ==> script@ == script_of(
                plan_of(self.base@, heads@, stack_of(stack@)),
            ),
            r matches Err(e) ==> e == TrailError::InconsistentHistory,
    {
        match self.instructions(heads, stack) {
            Ok(plan) => Ok(render(&plan)),
            Err(e) => Err(e),
        }
    }
}


} // verus!
