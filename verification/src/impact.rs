//! Which commits of a range touched any file of a given set.
//!
//! The caller asks the repository, commit by commit, for the files each
//! commit touched; a query may fail. Here the answers are read, in
//! parallel, and the commits chosen, in the order in which they were given.

use rayon::iter::{IntoParallelRefIterator, ParallelIterator};
use vstd::prelude::*;
use vstd::string::StringExecFns;
use crate::ids::CommitHash;
use crate::text::{lines, lines_of, stripped, texts_of, trim, trim_matches, trimmed};

verus! {

/// A commit of the range, with the repository's answer to the question
/// which files it touched: `None` where the question failed.
#[derive(Debug, PartialEq, Eq)]
pub struct Candidate {
    pub commit: CommitHash,
    pub report: Option<String>,
}

/// The mathematical content of a [`Candidate`].
pub struct CandidateView {
    pub commit: Seq<char>,
    pub report: Option<Seq<char>>,
}

impl View for Candidate {
    type V = CandidateView;

    open spec fn view(&self) -> CandidateView {
        CandidateView {
            commit: self.commit@,
            report: match self.report {
                Some(text) => Some(text@),
                None => None,
            },
        }
    }
}

/// The contents of the candidates in `s`, in the same order.
pub open spec fn candidates_of(s: Seq<Candidate>) -> Seq<CandidateView> {
    s.map_values(|c: Candidate| c@)
}

/// The texts of the hashes in `s`, in the same order.
pub open spec fn hashes_of(s: Seq<CommitHash>) -> Seq<Seq<char>> {
    s.map_values(|h: CommitHash| h@)
}

/// The paths that a report lists: its lines, white space around the whole
/// report set aside.
pub open spec fn files_of(report: Seq<char>) -> Seq<Seq<char>> {
    lines_of(trimmed(report))
}

/// Whether some path is in both lists.
pub open spec fn share_a_path(files: Seq<Seq<char>>, fileset: Seq<Seq<char>>) -> bool {
    exists|i: int| 0 <= i < files.len() && fileset.contains(#[trigger] files[i])
}

/// Whether the candidate is known to have touched a file of `fileset`.
pub open spec fn affects(c: CandidateView, fileset: Seq<Seq<char>>) -> bool {
    c.report is Some && share_a_path(files_of(c.report->0), fileset)
}

/// The commits, in their order among the candidates, that are known to
/// have touched a file of `fileset`.
pub open spec fn affecting(candidates: Seq<CandidateView>, fileset: Seq<Seq<char>>) -> Seq<Seq<char>> {
    candidates.filter(|c: CandidateView| affects(c, fileset)).map_values(
        |c: CandidateView| c.commit,
    )
}

/// The commits that a log lists, one to a line, each between double quotes
/// or bare.
pub open spec fn logged_commits_of(log: Seq<char>) -> Seq<Seq<char>> {
    lines_of(trimmed(log)).map_values(|line: Seq<char>| stripped(line, '"'))
}

/// The range `start..end`, as the repository reads it: the commits
/// reachable from `end` and not from `start`.
pub fn range_argument(start: &CommitHash, end: &CommitHash) -> (range: String)
    ensures
        range@ == start@ + ".."@ + end@,
{
    start.to_string().concat("..").concat(end.as_ref().as_str())
}

/// Reads the log of a range: one commit to a line, each between double
/// quotes or bare; white space around the whole log is set aside.
pub fn logged_commits(log: &str) -> (commits: Vec<CommitHash>)
    ensures
        hashes_of(commits@) == logged_commits_of(log@),
{
    let rows = lines(trim(log).as_str());
    let mut commits: Vec<CommitHash> = Vec::new();
    let mut i: usize = 0;
    while i < rows.len()
        invariant
            i <= rows.len(),
            texts_of(rows@) == lines_of(trimmed(log@)),
            hashes_of(commits@) == logged_commits_of(log@).take(i as int),
        decreases rows.len() - i,
    {
        let ghost before = hashes_of(commits@);
        let hash = CommitHash::new(trim_matches(rows[i].as_str(), '"'));
        proof {
            assert(texts_of(rows@)[i as int] == rows@[i as int]@);
            assert(hash@ == logged_commits_of(log@)[i as int]);
        }
        commits.push(hash);
        proof {
            assert(hashes_of(commits@) =~= before.push(logged_commits_of(log@)[i as int]));
            assert(logged_commits_of(log@).take(i + 1) =~= logged_commits_of(log@).take(
                i as int,
            ).push(logged_commits_of(log@)[i as int]));
        }
        i += 1;
    }
    proof {
        assert(logged_commits_of(log@).take(rows@.len() as int) =~= logged_commits_of(log@));
    }
    commits
}

/// Whether `list` holds the text `t`.
fn lists(list: &Vec<String>, t: &String) -> (found: bool)
    ensures
        found == texts_of(list@).contains(t@),
{
    let mut i: usize = 0;
    while i < list.len()
        invariant
            i <= list.len(),
            forall|j: int| 0 <= j < i ==> texts_of(list@)[j] != t@,
        decreases list.len() - i,
    {
        if list[i] == *t {
            assert(texts_of(list@)[i as int] == t@);
            return true;
        }
        i += 1;
    }
    false
}

/// Whether a report lists a path of `fileset`.
pub fn touches(report: &str, fileset: &Vec<String>) -> (b: bool)
    ensures
        b == share_a_path(files_of(report@), texts_of(fileset@)),
{
    let files = lines(trim(report).as_str());
    let mut i: usize = 0;
    while i < files.len()
        invariant
            i <= files.len(),
            texts_of(files@) == files_of(report@),
            forall|j: int| 0 <= j < i ==> !texts_of(fileset@).contains(#[trigger] files_of(report@)[j]),
        decreases files.len() - i,
    {
        if lists(fileset, &files[i]) {
            assert(texts_of(files@)[i as int] == files@[i as int]@);
            return true;
        }
        assert(texts_of(files@)[i as int] == files@[i as int]@);
        i += 1;
    }
    false
}

/// Whether the candidate is known to have touched a file of `fileset`: its
/// query gave a report, and the report lists a path of the set.
pub fn is_affected(candidate: &Candidate, fileset: &Vec<String>) -> (b: bool)
    ensures
        b == affects(candidate@, texts_of(fileset@)),
{
    match &candidate.report {
        Some(report) => touches(report.as_str(), fileset),
        None => false,
    }
}

/// Decides for every candidate whether it is affected, with the candidates
/// shared out among the threads of rayon's pool. Wraps rayon's `par_iter`,
/// `map` and `collect`: `map` applies the closure to each item, and `collect`
/// into a `Vec` puts the results at the positions of their items, whichever
/// thread is done first. The closure is one call of [`is_affected`].
#[verifier::external_body]
fn decide_each(candidates: &Vec<Candidate>, fileset: &Vec<String>) -> (decisions: Vec<bool>)
    ensures
        decisions@.len() == candidates@.len(),
        forall|i: int|
            0 <= i < candidates@.len() ==> decisions@[i] == affects(
                (#[trigger] candidates@[i])@,
                texts_of(fileset@),
            ),
{
    candidates.par_iter().map(|candidate| is_affected(candidate, fileset)).collect()
}

/// The commits among `candidates`, in their order, that touched a file of
/// `fileset`. A candidate whose query failed is left out, and so is one that
/// touched none of the files. The candidates are looked at in parallel; the
/// result does not depend on which is done first.
pub fn get_commits_affecting_files(candidates: &Vec<Candidate>, fileset: &Vec<String>) -> (kept: Vec<
    CommitHash,
>)
    ensures
        hashes_of(kept@) == affecting(candidates_of(candidates@), texts_of(fileset@)),
{
    let ghost all = candidates_of(candidates@);
    let ghost paths = texts_of(fileset@);
    let decisions = decide_each(candidates, fileset);
    let mut kept: Vec<CommitHash> = Vec::new();
    let mut i: usize = 0;
    proof {
        reveal(Seq::filter);
        assert(all.take(0) =~= Seq::<CandidateView>::empty());
        assert(hashes_of(kept@) =~= affecting(all.take(0), paths));
    }
    while i < candidates.len()
        invariant
            i <= candidates.len(),
            all == candidates_of(candidates@),
            paths == texts_of(fileset@),
            decisions@.len() == candidates@.len(),
            forall|j: int|
                0 <= j < candidates@.len() ==> decisions@[j] == affects(
                    (#[trigger] candidates@[j])@,
                    paths,
                ),
            hashes_of(kept@) == affecting(all.take(i as int), paths),
        decreases candidates.len() - i,
    {
        let ghost before = hashes_of(kept@);
        let ghost seen = all.take(i as int);
        let candidate = &candidates[i];
        proof {
            assert(all[i as int] == candidate@);
            assert(decisions@[i as int] == affects(candidates@[i as int]@, paths));
            assert(all.take(i + 1) =~= seen.push(candidate@));
            seen.lemma_filter_push(candidate@, |c: CandidateView| affects(c, paths));
        }
        if decisions[i] {
            kept.push(candidate.commit.clone());
            proof {
                assert(hashes_of(kept@) =~= before.push(candidate.commit@));
                assert(affecting(all.take(i + 1), paths) =~= affecting(seen, paths).push(
                    candidate.commit@,
                ));
            }
        }
        i += 1;
    }
    proof {
        assert(all.take(candidates@.len() as int) =~= all);
    }
    kept
}

/// The positions among the candidates of those that are known to have
/// touched a file of `fileset`, in ascending order.
pub open spec fn kept_positions(candidates: Seq<CandidateView>, fileset: Seq<Seq<char>>) -> Seq<int>
    decreases candidates.len(),
{
    if candidates.len() == 0 {
        Seq::empty()
    } else {
        let before = kept_positions(candidates.drop_last(), fileset);
        if affects(candidates.last(), fileset) {
            before.push(candidates.len() - 1)
        } else {
            before
        }
    }
}

/// The candidate as it is when its query has failed.
pub open spec fn failed(c: CandidateView) -> CandidateView {
    CandidateView { commit: c.commit, report: None }
}

/// The commits that are kept stand in the order of the candidates: they
/// are the commits at the kept positions, which ascend, and every candidate
/// that touched a file of `fileset` is at one of them.
pub proof fn lemma_affecting_keeps_order(candidates: Seq<CandidateView>, fileset: Seq<Seq<char>>)
    ensures
        kept_positions(candidates, fileset).len() == affecting(candidates, fileset).len(),
        forall|a: int|
            0 <= a < kept_positions(candidates, fileset).len() ==> {
                let at = #[trigger] kept_positions(candidates, fileset)[a];
                &&& 0 <= at < candidates.len()
                &&& affects(candidates[at], fileset)
                &&& affecting(candidates, fileset)[a] == candidates[at].commit
            },
        forall|a: int, b: int|
            0 <= a < b < kept_positions(candidates, fileset).len() ==> #[trigger] kept_positions(
                candidates,
                fileset,
            )[a] < #[trigger] kept_positions(candidates, fileset)[b],
        forall|i: int|
            0 <= i < candidates.len() && affects(#[trigger] candidates[i], fileset)
                ==> kept_positions(candidates, fileset).contains(i),
    decreases candidates.len(),
{
    reveal(Seq::filter);
    if candidates.len() > 0 {
        let init = candidates.drop_last();
        lemma_affecting_keeps_order(init, fileset);
        let at = kept_positions(candidates, fileset);
        let at0 = kept_positions(init, fileset);
        let kept = affecting(candidates, fileset);
        let kept0 = affecting(init, fileset);
        let chosen = |c: CandidateView| affects(c, fileset);
        if affects(candidates.last(), fileset) {
            assert(candidates.filter(chosen) == init.filter(chosen).push(candidates.last()));
            assert(kept =~= kept0.push(candidates.last().commit));
        } else {
            assert(candidates.filter(chosen) == init.filter(chosen));
            assert(kept =~= kept0);
        }
        assert forall|a: int| 0 <= a < at.len() implies {
            let p = #[trigger] at[a];
            &&& 0 <= p < candidates.len()
            &&& affects(candidates[p], fileset)
            &&& kept[a] == candidates[p].commit
        } by {
            if a < at0.len() {
                assert(at[a] == at0[a]);
                assert(init[at0[a]] == candidates[at0[a]]);
                assert(kept[a] == kept0[a]);
            }
        }
        assert forall|a: int, b: int| 0 <= a < b < at.len() implies #[trigger] at[a]
            < #[trigger] at[b] by {
            assert(at[a] == at0[a]);
            if b < at0.len() {
                assert(at[b] == at0[b]);
            }
        }
        assert forall|i: int|
            0 <= i < candidates.len() && affects(#[trigger] candidates[i], fileset) implies at.contains(
            i,
        ) by {
            if i < init.len() {
                assert(init[i] == candidates[i]);
                assert(at0.contains(i));
                let a = choose|a: int| 0 <= a < at0.len() && at0[a] == i;
                assert(at[a] == i);
            } else {
                assert(at[at.len() - 1] == i);
            }
        }
    }
}

/// A query that fails takes its own commit out of the result and leaves
/// the others as they were: the result is that of the candidates without
/// that one.
pub proof fn lemma_failed_query_drops_only_that_commit(
    candidates: Seq<CandidateView>,
    fileset: Seq<Seq<char>>,
    k: int,
)
    requires
        0 <= k < candidates.len(),
    ensures
        affecting(candidates.update(k, failed(candidates[k])), fileset) == affecting(
            candidates.remove(k),
            fileset,
        ),
{
    let chosen = |c: CandidateView| affects(c, fileset);
    let head = candidates.take(k);
    let tail = candidates.skip(k + 1);
    let lost = seq![failed(candidates[k])];
    assert(candidates.update(k, failed(candidates[k])) =~= head + lost + tail);
    assert(candidates.remove(k) =~= head + tail);
    Seq::filter_distributes_over_add(head + lost, tail, chosen);
    Seq::filter_distributes_over_add(head, lost, chosen);
    Seq::filter_distributes_over_add(head, tail, chosen);
    assert(lost.filter(chosen) =~= Seq::<CandidateView>::empty()) by {
        let none = Seq::<CandidateView>::empty();
        assert(lost =~= none.push(failed(candidates[k])));
        assert(!chosen(failed(candidates[k])));
        none.lemma_filter_push(failed(candidates[k]), chosen);
        reveal(Seq::filter);
        assert(none.filter(chosen) =~= none);
    }
    assert((head + lost + tail).filter(chosen) =~= (head + tail).filter(chosen));
}

} // verus!
