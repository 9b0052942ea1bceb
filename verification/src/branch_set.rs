//! The branches that a rewrite carries along.

use vstd::prelude::*;
use vstd::string::StringExecFns;
use crate::error::TrailError;
use crate::ids::{Branch, CommitHash};
use crate::text::{
    compare, contains, lemma_lex_less_transitive, lex_less, lines, lines_of, occurs_in, texts_of,
    Order,
};

verus! {

/// The names of the branches in `s`, in the same order.
pub open spec fn names_of(s: Seq<Branch>) -> Seq<Seq<char>> {
    s.map_values(|b: Branch| b@)
}

/// Whether `branches` holds a branch named as `b` is.
pub fn holds(branches: &Vec<Branch>, b: &Branch) -> (found: bool)
    ensures
        found == names_of(branches@).contains(b@),
{
    let mut i: usize = 0;
    while i < branches.len()
        invariant
            i <= branches.len(),
            forall|j: int| 0 <= j < i ==> names_of(branches@)[j] != b@,
        decreases branches.len() - i,
    {
        if branches[i].same(b) {
            assert(names_of(branches@)[i as int] == b@);
            return true;
        }
        i += 1;
    }
    false
}

/// The branches that a listing names: its lines, without any that tells of
/// a detached head.
pub open spec fn listed_branches_of(listing: Seq<char>) -> Seq<Seq<char>> {
    lines_of(listing).filter(|line: Seq<char>| !occurs_in(line, " detached "@))
}

/// Reads the repository's listing of branches, one name to a line. A line
/// that tells of a detached head names no branch and is passed over.
pub fn branches_of_listing(listing: &str) -> (branches: Vec<Branch>)
    ensures
        names_of(branches@) == listed_branches_of(listing@),
{
    let rows = lines(listing);
    let ghost all = lines_of(listing@);
    let ghost named = |line: Seq<char>| !occurs_in(line, " detached "@);
    let mut branches: Vec<Branch> = Vec::new();
    let mut i: usize = 0;
    proof {
        reveal(Seq::filter);
        assert(all.take(0) =~= Seq::<Seq<char>>::empty());
        assert(names_of(branches@) =~= all.take(0).filter(named));
    }
    while i < rows.len()
        invariant
            i <= rows.len(),
            all == lines_of(listing@),
            texts_of(rows@) == all,
            named == |line: Seq<char>| !occurs_in(line, " detached "@),
            names_of(branches@) == all.take(i as int).filter(named),
        decreases rows.len() - i,
    {
        let ghost before = names_of(branches@);
        let ghost seen = all.take(i as int);
        proof {
            assert(texts_of(rows@)[i as int] == rows@[i as int]@);
            assert(all.take(i + 1) =~= seen.push(all[i as int]));
            seen.lemma_filter_push(all[i as int], named);
        }
        if !contains(rows[i].as_str(), " detached ") {
            branches.push(Branch::new(rows[i].clone()));
            proof {
                assert(names_of(branches@) =~= before.push(all[i as int]));
            }
        }
        i += 1;
    }
    proof {
        assert(all.take(rows@.len() as int) =~= all);
    }
    branches
}

impl CommitHash {
    /// The branches that point at this commit, read from the repository's
    /// listing of them. A detached head is no branch.
    pub fn branches(&self, listing: &str) -> (branches: Vec<Branch>)
        ensures
            names_of(branches@) == listed_branches_of(listing@),
    {
        branches_of_listing(listing)
    }

    /// The branches whose history contains this commit, read from the
    /// repository's listing of them. A detached head is no branch.
    pub fn branches_containing_revision(&self, listing: &str) -> (branches: Vec<Branch>)
        ensures
            names_of(branches@) == listed_branches_of(listing@),
    {
        branches_of_listing(listing)
    }
}

impl Branch {
    /// The full name of the reference under which the repository keeps the
    /// local branch `name`.
    pub fn local_ref(name: &str) -> (reference: String)
        ensures
            reference@ == "refs/heads/"@ + name@,
    {
        String::from_str("refs/heads/").concat(name)
    }

    /// Settles which branch a name typed by a user means. Where the name is
    /// that of a local branch, it is that branch. Otherwise the name is read
    /// as a revision, and `pointing` lists the branches that point at it: the
    /// name means the one branch that does.
    ///
    /// Fails with `NotFound` where the name is no branch and no branch
    /// points at it, and with `Ambiguous` where several do.
    pub fn resolve(name: &str, is_local_branch: bool, pointing: &Vec<Branch>) -> (r: Result<
        Branch,
        TrailError,
    >)
        ensures
            r is Ok <==> is_local_branch || pointing@.len() == 1,
            r matches Ok(branch) ==> branch@ == (if is_local_branch {
                name@
            } else {
                pointing@[0]@
            }),
            r matches Err(e) ==> e == (if pointing@.len() == 0 {
                TrailError::NotFound
            } else {
                TrailError::Ambiguous
            }),
    {
        if is_local_branch {
            Ok(Branch::new(String::from_str(name)))
        } else if pointing.len() == 0 {
            Err(TrailError::NotFound)
        } else if pointing.len() == 1 {
            Ok(pointing[0].clone())
        } else {
            Err(TrailError::Ambiguous)
        }
    }
}

/// Whether the names stand in strictly ascending dictionary order.
pub open spec fn ascending(s: Seq<Seq<char>>) -> bool {
    forall|i: int, j: int| 0 <= i < j < s.len() ==> lex_less(#[trigger] s[i], #[trigger] s[j])
}

/// Whether `set` lists, in ascending order and each once, the names that
/// are in `keep` and not in `drop`.
pub open spec fn is_difference(set: Seq<Seq<char>>, keep: Seq<Seq<char>>, drop: Seq<Seq<char>>) -> bool {
    &&& ascending(set)
    &&& forall|name: Seq<char>|
        set.contains(name) <==> keep.contains(name) && !drop.contains(name)
}

/// Puts `b` at its place in the ascending list `names`, unless a branch of
/// that name is there already.
fn insert_ascending(names: &mut Vec<Branch>, b: Branch)
    requires
        ascending(names_of(old(names)@)),
    ensures
        ascending(names_of(final(names)@)),
        forall|name: Seq<char>|
            names_of(final(names)@).contains(name) <==> names_of(old(names)@).contains(name)
                || name == b@,
{
    let ghost before = names_of(names@);
    let mut p: usize = 0;
    let mut found = false;
    while p < names.len()
        invariant_except_break
            !found,
        invariant
            p <= names.len(),
            names_of(names@) == before,
            forall|j: int| 0 <= j < p ==> lex_less(#[trigger] before[j], b@),
        ensures
            found ==> p < names.len() && before[p as int] == b@,
            !found ==> p == names.len() || lex_less(b@, before[p as int]),
        decreases names.len() - p,
    {
        match compare(names[p].as_ref().as_str(), b.as_ref().as_str()) {
            Order::Before => {
                p += 1;
            },
            Order::Same => {
                found = true;
                break ;
            },
            Order::After => {
                break ;
            },
        }
    }
    if found {
        assert(before.contains(b@));
        return ;
    }
    let ghost name = b@;
    names.insert(p, b);
    let ghost after = names_of(names@);
    proof {
        assert(after =~= before.insert(p as int, name));
        assert forall|i: int, j: int| 0 <= i < j < after.len() implies lex_less(
            #[trigger] after[i],
            #[trigger] after[j],
        ) by {
            if j < p {
                assert(after[i] == before[i] && after[j] == before[j]);
            } else if j == p {
                assert(after[i] == before[i]);
            } else if i == p {
                assert(after[j] == before[j - 1]);
                if j - 1 > p {
                    assert(lex_less(before[p as int], before[j - 1]));
                    lemma_lex_less_transitive(name, before[p as int], before[j - 1]);
                }
            } else if i < p {
                assert(after[i] == before[i] && after[j] == before[j - 1]);
            } else {
                assert(after[i] == before[i - 1] && after[j] == before[j - 1]);
            }
        }
        assert forall|x: Seq<char>| after.contains(x) <==> before.contains(x) || x == name by {
            if after.contains(x) {
                let i = choose|i: int| 0 <= i < after.len() && after[i] == x;
                if i < p {
                    assert(before[i] == x);
                } else if i > p {
                    assert(before[i - 1] == x);
                }
            }
            if before.contains(x) {
                let i = choose|i: int| 0 <= i < before.len() && before[i] == x;
                if i < p {
                    assert(after[i] == x);
                } else {
                    assert(after[i + 1] == x);
                }
            }
            if x == name {
                assert(after[p as int] == x);
            }
        }
    }
}

/// An ordered set of branches: the ones to carry through a rewrite. The
/// branches stand in ascending order of name, so none is held twice.
pub struct BranchSet {
    names: Vec<Branch>,
}

impl View for BranchSet {
    type V = Seq<Seq<char>>;

    closed spec fn view(&self) -> Seq<Seq<char>> {
        names_of(self.names@)
    }
}

impl BranchSet {
    #[verifier::type_invariant]
    spec fn in_order(self) -> bool {
        ascending(names_of(self.names@))
    }

    /// The branches of the set, in ascending order of name.
    pub fn names(&self) -> (names: &Vec<Branch>)
        ensures
            names_of(names@) == self@,
            ascending(self@),
    {
        proof {
            use_type_invariant(self);
        }
        &self.names
    }

    /// The branches to carry from an old base onto a new one: those whose
    /// history contains the old base, without those whose history contains
    /// the new one already. Each is listed once, in ascending order of name.
    pub fn new(containing_base: &Vec<Branch>, containing_onto: &Vec<Branch>) -> (set: BranchSet)
        ensures
            is_difference(set@, names_of(containing_base@), names_of(containing_onto@)),
    {
        let ghost keep = names_of(containing_base@);
        let ghost drop = names_of(containing_onto@);
        let mut names: Vec<Branch> = Vec::new();
        let mut i: usize = 0;
        while i < containing_base.len()
            invariant
                i <= containing_base.len(),
                keep == names_of(containing_base@),
                drop == names_of(containing_onto@),
                is_difference(names_of(names@), keep.take(i as int), drop),
            decreases containing_base.len() - i,
        {
            let ghost before = names_of(names@);
            let ghost seen = keep.take(i as int);
            let candidate = &containing_base[i];
            proof {
                assert(keep[i as int] == candidate@);
                assert(keep.take(i + 1) =~= seen.push(candidate@));
                assert forall|x: Seq<char>| keep.take(i + 1).contains(x) <==> seen.contains(x)
                    || x == candidate@ by {
                    if seen.contains(x) {
                        let j = choose|j: int| 0 <= j < seen.len() && seen[j] == x;
                        assert(keep.take(i + 1)[j] == x);
                    }
                    if x == candidate@ {
                        assert(keep.take(i + 1)[i as int] == x);
                    }
                }
            }
            if !holds(containing_onto, candidate) {
                insert_ascending(&mut names, candidate.clone());
            }
            i += 1;
        }
        proof {
            assert(keep.take(containing_base@.len() as int) =~= keep);
        }
        BranchSet { names }
    }

    /// Whether the set holds a branch named as `b` is.
    pub fn contains(&self, b: &Branch) -> (found: bool)
        ensures
            found == self@.contains(b@),
    {
        holds(&self.names, b)
    }

    /// How many branches the set holds.
    pub fn len(&self) -> (n: usize)
        ensures
            n == self@.len(),
    {
        self.names.len()
    }
}

} // verus!
