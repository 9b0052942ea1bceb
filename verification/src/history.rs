//! The commits between a base and a set of heads, as the repository lists
//! them: one line for each commit, holding the commit and then its parents.

use vstd::prelude::*;
use vstd::string::StringExecFns;
use crate::branch_set::{names_of, BranchSet};
use crate::ids::CommitHash;
use crate::error::TrailError;
use crate::plan::EvolvePlan;
use crate::text::{are_line_bounds, chars_of, line_bounds, lines_of, texts_of, words_between, words_of};

verus! {

/// A commit together with its first parent.
#[derive(Debug, PartialEq, Eq)]
pub struct CommitNode {
    pub commit: CommitHash,
    pub parent: CommitHash,
}

/// The mathematical content of a [`CommitNode`].
pub struct CommitNodeView {
    pub commit: Seq<char>,
    pub parent: Seq<char>,
}

impl View for CommitNode {
    type V = CommitNodeView;

    open spec fn view(&self) -> CommitNodeView {
        CommitNodeView { commit: self.commit@, parent: self.parent@ }
    }
}

/// The contents of the nodes in `s`, in the same order.
pub open spec fn nodes_of(s: Seq<CommitNode>) -> Seq<CommitNodeView> {
    s.map_values(|n: CommitNode| n@)
}

/// Whether a line of the listing names a commit and a parent.
pub open spec fn is_node_line(line: Seq<char>) -> bool {
    words_of(line).len() >= 2
}

/// The node that a line of the listing stands for: its first word is the
/// commit, its second the commit's first parent.
pub open spec fn node_of_line(line: Seq<char>) -> CommitNodeView {
    CommitNodeView { commit: words_of(line)[0], parent: words_of(line)[1] }
}

/// Whether every line of the listing names a commit and a parent.
pub open spec fn is_history(listing: Seq<char>) -> bool {
    forall|k: int| 0 <= k < lines_of(listing).len() ==> is_node_line(#[trigger] lines_of(listing)[k])
}

/// The nodes of a listing, in the order of its lines.
pub open spec fn history_of(listing: Seq<char>) -> Seq<CommitNodeView> {
    lines_of(listing).map_values(|line: Seq<char>| node_of_line(line))
}

/// The arguments that ask the repository for the commits that are reachable
/// from `heads` and not from `base`: oldest first, no commit before its
/// parent, each with its parents.
pub open spec fn history_query_of(heads: Seq<Seq<char>>, base: Seq<char>) -> Seq<Seq<char>> {
    seq!["rev-list"@, "--reverse"@, "--topo-order"@, "--parents"@] + heads + seq!["^"@ + base]
}

impl<'a> EvolvePlan<'a> {
    /// The arguments that ask the repository for the commits to replay:
    /// those reachable from the branches of `heads` and not from the base.
    pub fn history_query(&self, heads: &BranchSet) -> (arguments: Vec<String>)
        ensures
            texts_of(arguments@) == history_query_of(heads@, self.base@),
    {
        let mut arguments: Vec<String> = Vec::new();
        arguments.push(String::from_str("rev-list"));
        arguments.push(String::from_str("--reverse"));
        arguments.push(String::from_str("--topo-order"));
        arguments.push(String::from_str("--parents"));
        let ghost fixed = seq!["rev-list"@, "--reverse"@, "--topo-order"@, "--parents"@];
        assert(texts_of(arguments@) =~= fixed + heads@.take(0));
        let branches = heads.names();
        let mut i: usize = 0;
        while i < branches.len()
            invariant
                i <= heads@.len(),
                names_of(branches@) == heads@,
                fixed == seq!["rev-list"@, "--reverse"@, "--topo-order"@, "--parents"@],
                texts_of(arguments@) == fixed + heads@.take(i as int),
            decreases heads@.len() - i,
        {
            let ghost before = texts_of(arguments@);
            arguments.push(branches[i].to_string());
            assert(names_of(branches@)[i as int] == branches@[i as int]@);
            proof {
                assert(texts_of(arguments@) =~= before.push(heads@[i as int]));
                assert(heads@.take(i + 1) =~= heads@.take(i as int).push(heads@[i as int]));
                assert(texts_of(arguments@) =~= fixed + heads@.take(i + 1));
            }
            i += 1;
        }
        let ghost before = texts_of(arguments@);
        arguments.push(String::from_str("^").concat(self.base.as_ref().as_str()));
        proof {
            assert(heads@.take(heads@.len() as int) =~= heads@);
            assert(texts_of(arguments@) =~= before.push("^"@ + self.base@));
            assert(texts_of(arguments@) =~= history_query_of(heads@, self.base@));
        }
        arguments
    }
}

/// Reads the repository's listing of commits with their parents: of each
/// line the first word is a commit and the second its first parent; further
/// parents are passed over.
///
/// Fails exactly when some line holds fewer than two words: a commit
/// without a parent cannot be replayed onto anything.
pub fn parse_history(listing: &str) -> (r: Result<Vec<CommitNode>, TrailError>)
    ensures
        r is Ok <==> is_history(listing@),
        r matches Ok(nodes) ==> nodes_of(nodes@) == history_of(listing@),
        r matches Err(e) ==> e == TrailError::InconsistentHistory,
{
    let v = chars_of(listing);
    let bounds = line_bounds(&v);
    let mut nodes: Vec<CommitNode> = Vec::new();
    let mut k: usize = 0;
    while k < bounds.len()
        invariant
            k <= bounds.len(),
            v@ == listing@,
            are_line_bounds(v@, bounds@),
            forall|j: int| 0 <= j < k ==> is_node_line(#[trigger] lines_of(v@)[j]),
            nodes_of(nodes@) == history_of(v@).take(k as int),
        decreases bounds.len() - k,
    {
        let (from, to) = bounds[k];
        let words = words_between(&v, from, to);
        let ghost line = lines_of(v@)[k as int];
        let ghost before = nodes_of(nodes@);
        proof {
            assert(texts_of(words@) == words_of(line));
        }
        if words.len() < 2 {
            return Err(TrailError::InconsistentHistory);
        }
        let node = CommitNode {
            commit: CommitHash::new(words[0].clone()),
            parent: CommitHash::new(words[1].clone()),
        };
        proof {
            assert(texts_of(words@)[0] == words@[0]@);
            assert(texts_of(words@)[1] == words@[1]@);
            assert(node@ == node_of_line(line));
        }
        nodes.push(node);
        proof {
            assert(nodes_of(nodes@) =~= before.push(node_of_line(line)));
            assert(history_of(v@).take(k + 1) =~= history_of(v@).take(k as int).push(
                node_of_line(line),
            ));
        }
        k += 1;
    }
    proof {
        assert(history_of(v@).take(bounds@.len() as int) =~= history_of(v@));
    }
    Ok(nodes)
}

} // verus!
