//! What holds of every plan.

use vstd::prelude::*;
use crate::branch_set::{ascending, is_difference};
use crate::plan::{
    anchor_for, block_for, blocks_upto, carried, plan_of, script_of, updates_for, InstructionView,
    StackedCommitView,
};
use crate::text::{lemma_lex_less_irreflexive, lemma_lex_less_transitive, lex_less};

verus! {

/// Whether the commits of `stack` differ from one another and from the base.
pub open spec fn distinct_commits(base: Seq<char>, stack: Seq<StackedCommitView>) -> bool {
    &&& forall|i: int| 0 <= i < stack.len() ==> (#[trigger] stack[i]).commit != base
    &&& forall|i: int, j: int|
        0 <= i < j < stack.len() ==> (#[trigger] stack[i]).commit != (#[trigger] stack[j]).commit
}

/// Whether `steps` holds the label `name` at position `k`.
pub open spec fn label_at(steps: Seq<InstructionView>, k: int, name: Seq<char>) -> bool {
    0 <= k < steps.len() && steps[k] == InstructionView::Label(name)
}

/// Whether every pick in `steps` has the label of its commit right behind it.
pub open spec fn picks_are_labeled(steps: Seq<InstructionView>) -> bool {
    forall|k: int|
        0 <= k < steps.len() && (#[trigger] steps[k]) is Pick ==> k + 1 < steps.len() && steps[k
            + 1] == InstructionView::Label(steps[k]->Pick_0)
}

/// Whether every label in `steps` from position `from` on has the pick of
/// its commit right before it.
pub open spec fn labels_follow_picks(steps: Seq<InstructionView>, from: int) -> bool {
    forall|k: int|
        from <= k < steps.len() && (#[trigger] steps[k]) is Label ==> k > 0 && steps[k - 1] is Pick
            && steps[k - 1]->Pick_0 == steps[k]->Label_0
}

/// A commit's block is: at most one reset, then the pick and the label of
/// the commit, then branch updates only.
proof fn lemma_block_shape(
    base: Seq<char>,
    heads: Seq<Seq<char>>,
    stack: Seq<StackedCommitView>,
    i: int,
)
    ensures
        ({
            let block = block_for(base, heads, stack, i);
            let a = anchor_for(base, stack, i).len() as int;
            &&& a <= 1
            &&& block.len() == a + 2 + carried(heads, stack[i].branches).len()
            &&& block[a] == InstructionView::Pick(stack[i].commit, stack[i].summary)
            &&& block[a + 1] == InstructionView::Label(stack[i].commit)
            &&& forall|k: int| 0 <= k < a ==> (#[trigger] block[k]) is Reset
            &&& forall|k: int|
                a + 2 <= k < block.len() ==> #[trigger] block[k] == InstructionView::BranchUpdate(
                    carried(heads, stack[i].branches)[k - a - 2],
                )
        }),
{
}

/// In the blocks of the first `n` commits, each pick has its label right
/// behind it and each label its pick right before it.
proof fn lemma_blocks_pair_up(
    base: Seq<char>,
    heads: Seq<Seq<char>>,
    stack: Seq<StackedCommitView>,
    n: nat,
)
    requires
        n <= stack.len(),
    ensures
        picks_are_labeled(blocks_upto(base, heads, stack, n)),
        labels_follow_picks(blocks_upto(base, heads, stack, n), 0),
    decreases n,
{
    if n > 0 {
        let m = (n - 1) as nat;
        lemma_blocks_pair_up(base, heads, stack, m);
        lemma_block_shape(base, heads, stack, m as int);
        let before = blocks_upto(base, heads, stack, m);
        let block = block_for(base, heads, stack, m as int);
        let all = blocks_upto(base, heads, stack, n);
        let a = anchor_for(base, stack, m as int).len() as int;
        assert(all == before + block);
        assert forall|k: int| 0 <= k < all.len() && (#[trigger] all[k]) is Pick implies k + 1
            < all.len() && all[k + 1] == InstructionView::Label(all[k]->Pick_0) by {
            if k < before.len() {
                assert(before[k] is Pick);
                assert(all[k + 1] == before[k + 1]);
            } else {
                let r = k - before.len();
                assert(all[k] == block[r]);
                assert(r == a);
                assert(all[k + 1] == block[r + 1]);
            }
        }
        assert forall|k: int| 0 <= k < all.len() && (#[trigger] all[k]) is Label implies k > 0
            && all[k - 1] is Pick && all[k - 1]->Pick_0 == all[k]->Label_0 by {
            if k < before.len() {
                assert(before[k] is Label);
                assert(all[k - 1] == before[k - 1]);
            } else {
                let r = k - before.len();
                assert(all[k] == block[r]);
                assert(r == a + 1);
                assert(all[k - 1] == block[r - 1]);
            }
        }
    }
}

/// A label in the blocks of the first `n` commits names one of them.
proof fn lemma_blocks_label_commits(
    base: Seq<char>,
    heads: Seq<Seq<char>>,
    stack: Seq<StackedCommitView>,
    n: nat,
    k: int,
    name: Seq<char>,
)
    requires
        n <= stack.len(),
        label_at(blocks_upto(base, heads, stack, n), k, name),
    ensures
        exists|i: int| 0 <= i < n && (#[trigger] stack[i]).commit == name,
    decreases n,
{
    if n > 0 {
        let m = (n - 1) as nat;
        lemma_block_shape(base, heads, stack, m as int);
        let before = blocks_upto(base, heads, stack, m);
        let block = block_for(base, heads, stack, m as int);
        let all = blocks_upto(base, heads, stack, n);
        let a = anchor_for(base, stack, m as int).len() as int;
        assert(all == before + block);
        if k < before.len() {
            assert(all[k] == before[k]);
            lemma_blocks_label_commits(base, heads, stack, m, k, name);
            let i = choose|i: int| 0 <= i < m && (#[trigger] stack[i]).commit == name;
            assert(0 <= i < n && stack[i].commit == name);
        } else {
            let r = k - before.len();
            assert(all[k] == block[r]);
            assert(r == a + 1);
            assert(stack[m as int].commit == name);
        }
    }
}

/// Each of the first `n` commits has its label in their blocks.
proof fn lemma_blocks_hold_label(
    base: Seq<char>,
    heads: Seq<Seq<char>>,
    stack: Seq<StackedCommitView>,
    n: nat,
    i: int,
)
    requires
        n <= stack.len(),
        0 <= i < n,
    ensures
        exists|k: int| #[trigger] label_at(blocks_upto(base, heads, stack, n), k, stack[i].commit),
    decreases n,
{
    let m = (n - 1) as nat;
    lemma_block_shape(base, heads, stack, m as int);
    let before = blocks_upto(base, heads, stack, m);
    let block = block_for(base, heads, stack, m as int);
    let all = blocks_upto(base, heads, stack, n);
    let a = anchor_for(base, stack, m as int).len() as int;
    assert(all == before + block);
    if i < m {
        lemma_blocks_hold_label(base, heads, stack, m, i);
        let k = choose|k: int| #[trigger] label_at(before, k, stack[i].commit);
        assert(all[k] == before[k]);
        assert(label_at(all, k, stack[i].commit));
    } else {
        let k = before.len() + a + 1;
        assert(all[k] == block[a + 1]);
        assert(label_at(all, k, stack[i].commit));
    }
}

/// A branch update in the blocks of the first `n` commits is of a branch
/// of `heads`.
proof fn lemma_blocks_update_heads(
    base: Seq<char>,
    heads: Seq<Seq<char>>,
    stack: Seq<StackedCommitView>,
    n: nat,
    k: int,
)
    requires
        n <= stack.len(),
        0 <= k < blocks_upto(base, heads, stack, n).len(),
        blocks_upto(base, heads, stack, n)[k] is BranchUpdate,
    ensures
        heads.contains(blocks_upto(base, heads, stack, n)[k]->BranchUpdate_0),
    decreases n,
{
    if n > 0 {
        let m = (n - 1) as nat;
        lemma_block_shape(base, heads, stack, m as int);
        let before = blocks_upto(base, heads, stack, m);
        let block = block_for(base, heads, stack, m as int);
        let all = blocks_upto(base, heads, stack, n);
        let a = anchor_for(base, stack, m as int).len() as int;
        assert(all == before + block);
        if k < before.len() {
            assert(all[k] == before[k]);
            lemma_blocks_update_heads(base, heads, stack, m, k);
        } else {
            let r = k - before.len();
            assert(all[k] == block[r]);
            assert(r >= a + 2);
            let kept = carried(heads, stack[m as int].branches);
            assert(kept.contains(kept[r - a - 2]));
            heads.lemma_filter_contains_rev(
                |b: Seq<char>| stack[m as int].branches.contains(b),
                kept[r - a - 2],
            );
        }
    }
}

/// With distinct commits, no label occurs twice in the blocks of the first
/// `n` commits.
proof fn lemma_blocks_label_once(
    base: Seq<char>,
    heads: Seq<Seq<char>>,
    stack: Seq<StackedCommitView>,
    n: nat,
)
    requires
        n <= stack.len(),
        distinct_commits(base, stack),
    ensures
        forall|k1: int, k2: int, name: Seq<char>|
            #![trigger label_at(blocks_upto(base, heads, stack, n), k1, name), label_at(blocks_upto(base, heads, stack, n), k2, name)]
            label_at(blocks_upto(base, heads, stack, n), k1, name) && label_at(
                blocks_upto(base, heads, stack, n),
                k2,
                name,
            ) ==> k1 == k2,
    decreases n,
{
    if n > 0 {
        let m = (n - 1) as nat;
        lemma_blocks_label_once(base, heads, stack, m);
        lemma_block_shape(base, heads, stack, m as int);
        let before = blocks_upto(base, heads, stack, m);
        let block = block_for(base, heads, stack, m as int);
        let all = blocks_upto(base, heads, stack, n);
        let a = anchor_for(base, stack, m as int).len() as int;
        assert(all == before + block);
        assert forall|k1: int, k2: int, name: Seq<char>|
            #![trigger label_at(all, k1, name), label_at(all, k2, name)]
            label_at(all, k1, name) && label_at(all, k2, name) implies k1 == k2 by {
            let in1 = k1 < before.len();
            let in2 = k2 < before.len();
            if in1 {
                assert(label_at(before, k1, name));
            } else {
                assert(all[k1] == block[k1 - before.len()]);
                assert(k1 - before.len() == a + 1);
            }
            if in2 {
                assert(label_at(before, k2, name));
            } else {
                assert(all[k2] == block[k2 - before.len()]);
                assert(k2 - before.len() == a + 1);
            }
            if in1 != in2 {
                lemma_blocks_label_commits(base, heads, stack, m, if in1 { k1 } else { k2 }, name);
                let i = choose|i: int| 0 <= i < m && (#[trigger] stack[i]).commit == name;
                assert(stack[m as int].commit == name);
                assert(false);
            }
        }
    }
}

/// Every plan begins with the label of the base and ends with the return to
/// the base.
pub proof fn lemma_plan_is_bracketed(
    base: Seq<char>,
    heads: Seq<Seq<char>>,
    stack: Seq<StackedCommitView>,
)
    ensures
        plan_of(base, heads, stack).len() >= 2,
        plan_of(base, heads, stack).first() == InstructionView::Label(base),
        plan_of(base, heads, stack).last() == InstructionView::Reset(base),
{
}

/// In every plan, each pick is followed at once by the label of the commit
/// it picked, and each label but the opening one follows at once the pick of
/// the commit it names.
pub proof fn lemma_picks_and_labels_pair_up(
    base: Seq<char>,
    heads: Seq<Seq<char>>,
    stack: Seq<StackedCommitView>,
)
    ensures
        picks_are_labeled(plan_of(base, heads, stack)),
        labels_follow_picks(plan_of(base, heads, stack), 1),
{
    lemma_blocks_pair_up(base, heads, stack, stack.len());
    let blocks = blocks_upto(base, heads, stack, stack.len());
    let plan = plan_of(base, heads, stack);
    assert forall|k: int| 0 <= k < plan.len() && (#[trigger] plan[k]) is Pick implies k + 1
        < plan.len() && plan[k + 1] == InstructionView::Label(plan[k]->Pick_0) by {
        assert(plan[k] == blocks[k - 1]);
        assert(plan[k + 1] == blocks[k]);
    }
    assert forall|k: int| 1 <= k < plan.len() && (#[trigger] plan[k]) is Label implies k > 0
        && plan[k - 1] is Pick && plan[k - 1]->Pick_0 == plan[k]->Label_0 by {
        assert(plan[k] == blocks[k - 1]);
        assert(blocks[k - 1] is Label);
        assert(plan[k - 1] == blocks[k - 2]);
    }
}

/// Where the commits differ from one another and from the base, the label
/// of commit `i` occurs exactly once in the plan, and the label of the base
/// only at the start.
pub proof fn lemma_each_commit_is_labeled_once(
    base: Seq<char>,
    heads: Seq<Seq<char>>,
    stack: Seq<StackedCommitView>,
    i: int,
)
    requires
        distinct_commits(base, stack),
        0 <= i < stack.len(),
    ensures
        exists|k: int| #[trigger]
            label_at(plan_of(base, heads, stack), k, stack[i].commit) && forall|other: int| #[trigger]
                label_at(plan_of(base, heads, stack), other, stack[i].commit) ==> other == k,
        forall|k: int| #[trigger] label_at(plan_of(base, heads, stack), k, base) ==> k == 0,
{
    lemma_blocks_hold_label(base, heads, stack, stack.len(), i);
    lemma_blocks_label_once(base, heads, stack, stack.len());
    let blocks = blocks_upto(base, heads, stack, stack.len());
    let plan = plan_of(base, heads, stack);
    let name = stack[i].commit;
    let at = choose|k: int| #[trigger] label_at(blocks, k, name);
    assert(plan[at + 1] == blocks[at]);
    assert(label_at(plan, at + 1, name));
    assert forall|other: int| #[trigger] label_at(plan, other, name) implies other == at + 1 by {
        assert(0 < other < plan.len() - 1);
        assert(plan[other] == blocks[other - 1]);
        assert(label_at(blocks, other - 1, name));
    }
    assert forall|k: int| #[trigger] label_at(plan, k, base) implies k == 0 by {
        if k != 0 {
            assert(plan[k] == blocks[k - 1]);
            assert(label_at(blocks, k - 1, base));
            lemma_blocks_label_commits(base, heads, stack, stack.len(), k - 1, base);
            let j = choose|j: int| 0 <= j < stack.len() && (#[trigger] stack[j]).commit == base;
            assert(false);
        }
    }
}

/// A plan updates no branch outside the set it was made for.
pub proof fn lemma_updates_stay_in_set(
    base: Seq<char>,
    heads: Seq<Seq<char>>,
    stack: Seq<StackedCommitView>,
    k: int,
)
    requires
        0 <= k < plan_of(base, heads, stack).len(),
        plan_of(base, heads, stack)[k] is BranchUpdate,
    ensures
        heads.contains(plan_of(base, heads, stack)[k]->BranchUpdate_0),
{
    let blocks = blocks_upto(base, heads, stack, stack.len());
    assert(plan_of(base, heads, stack)[k] == blocks[k - 1]);
    lemma_blocks_update_heads(base, heads, stack, stack.len(), k - 1);
}

/// A branch whose history contains the new base already is not in the set
/// of branches to carry, and no plan made for that set updates it.
pub proof fn lemma_reachable_branch_is_left_alone(
    base: Seq<char>,
    containing_base: Seq<Seq<char>>,
    containing_onto: Seq<Seq<char>>,
    heads: Seq<Seq<char>>,
    stack: Seq<StackedCommitView>,
    branch: Seq<char>,
)
    requires
        is_difference(heads, containing_base, containing_onto),
        containing_onto.contains(branch),
    ensures
        !heads.contains(branch),
        forall|k: int|
            0 <= k < plan_of(base, heads, stack).len() ==> #[trigger] plan_of(base, heads, stack)[k]
                != InstructionView::BranchUpdate(branch),
{
    assert forall|k: int| 0 <= k < plan_of(base, heads, stack).len() implies #[trigger] plan_of(
        base,
        heads,
        stack,
    )[k] != InstructionView::BranchUpdate(branch) by {
        if plan_of(base, heads, stack)[k] == InstructionView::BranchUpdate(branch) {
            lemma_updates_stay_in_set(base, heads, stack, k);
        }
    }
}

/// Two ascending lists that hold the same names are the same list.
pub proof fn lemma_ascending_is_unique(s: Seq<Seq<char>>, t: Seq<Seq<char>>)
    requires
        ascending(s),
        ascending(t),
        forall|name: Seq<char>| s.contains(name) <==> t.contains(name),
    ensures
        s == t,
    decreases s.len(),
{
    if s.len() == 0 {
        if t.len() > 0 {
            assert(t.contains(t[0]));
        }
        assert(s =~= t);
    } else {
        assert(s.contains(s.last()));
        let j = choose|j: int| 0 <= j < t.len() && t[j] == s.last();
        assert(t.contains(t.last()));
        let i = choose|i: int| 0 <= i < s.len() && s[i] == t.last();
        if j < t.len() - 1 && i < s.len() - 1 {
            lemma_lex_less_transitive(s.last(), t.last(), s.last());
        }
        if j < t.len() - 1 || i < s.len() - 1 {
            lemma_lex_less_irreflexive(s.last());
        }
        assert(s.last() == t.last());
        let s0 = s.drop_last();
        let t0 = t.drop_last();
        assert forall|name: Seq<char>| s0.contains(name) <==> t0.contains(name) by {
            if s0.contains(name) {
                let a = choose|a: int| 0 <= a < s0.len() && s0[a] == name;
                assert(s[a] == name);
                assert(s.contains(name));
                let b = choose|b: int| 0 <= b < t.len() && t[b] == name;
                if b == t.len() - 1 {
                    assert(lex_less(s[a], s[s.len() - 1]));
                    lemma_lex_less_irreflexive(name);
                }
                assert(t0[b] == name);
            }
            if t0.contains(name) {
                let b = choose|b: int| 0 <= b < t0.len() && t0[b] == name;
                assert(t[b] == name);
                assert(t.contains(name));
                let a = choose|a: int| 0 <= a < s.len() && s[a] == name;
                if a == s.len() - 1 {
                    assert(lex_less(t[b], t[t.len() - 1]));
                    lemma_lex_less_irreflexive(name);
                }
                assert(s0[a] == name);
            }
        }
        assert(ascending(s0)) by {
            assert forall|a: int, b: int| 0 <= a < b < s0.len() implies lex_less(
                #[trigger] s0[a],
                #[trigger] s0[b],
            ) by {
                assert(s0[a] == s[a] && s0[b] == s[b]);
            }
        }
        assert(ascending(t0)) by {
            assert forall|a: int, b: int| 0 <= a < b < t0.len() implies lex_less(
                #[trigger] t0[a],
                #[trigger] t0[b],
            ) by {
                assert(t0[a] == t[a] && t0[b] == t[b]);
            }
        }
        lemma_ascending_is_unique(s0, t0);
        assert(s =~= s0.push(s.last()));
        assert(t =~= t0.push(t.last()));
    }
}

/// The script depends on nothing but the base, the branches that contain
/// the old and the new base, and the commits: whichever way the set of
/// branches to carry was computed from them, the script is the same.
pub proof fn lemma_script_is_determined(
    base: Seq<char>,
    containing_base: Seq<Seq<char>>,
    containing_onto: Seq<Seq<char>>,
    stack: Seq<StackedCommitView>,
    heads: Seq<Seq<char>>,
    again: Seq<Seq<char>>,
)
    requires
        is_difference(heads, containing_base, containing_onto),
        is_difference(again, containing_base, containing_onto),
    ensures
        heads == again,
        plan_of(base, heads, stack) == plan_of(base, again, stack),
        script_of(plan_of(base, heads, stack)) == script_of(plan_of(base, again, stack)),
{
    lemma_ascending_is_unique(heads, again);
}

} // verus!
