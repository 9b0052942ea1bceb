//! The commits between two commits, as the repository's log lists them.

use vstd::prelude::*;
use vstd::string::StringExecFns;
use crate::ids::CommitHash;
use crate::text::{chars_of, lines, lines_of, texts_of, trim_bounds, trimmed};

verus! {

/// The arguments that ask the repository for the log of the commits that
/// are reachable from `second` and not from `first`, merges left out.
/// `format` holds the arguments that shape the log; where there are none,
/// the log gives the full hash of each commit.
pub open spec fn changes_query_of(
    first: Seq<char>,
    second: Seq<char>,
    format: Option<Seq<Seq<char>>>,
) -> Seq<Seq<char>> {
    seq!["log"@, "--no-merges"@] + (match format {
        Some(arguments) => arguments,
        None => seq!["--format=%H"@],
    }) + seq![first + ".."@ + second]
}

/// The view of the arguments, where there are any.
pub open spec fn format_of(format: Option<&Vec<String>>) -> Option<Seq<Seq<char>>> {
    match format {
        Some(arguments) => Some(texts_of(arguments@)),
        None => None,
    }
}

/// The arguments that ask the repository for the log of the commits that
/// are reachable from `second` and not from `first`, merges left out.
pub fn changes_query(first: &CommitHash, second: &CommitHash, format: Option<&Vec<String>>) -> (arguments: Vec<
    String,
>)
    ensures
        texts_of(arguments@) == changes_query_of(first@, second@, format_of(format)),
{
    let mut arguments: Vec<String> = Vec::new();
    arguments.push(String::from_str("log"));
    arguments.push(String::from_str("--no-merges"));
    let ghost fixed = seq!["log"@, "--no-merges"@];
    assert(texts_of(arguments@) =~= fixed);
    match format {
        Some(extra) => {
            let mut i: usize = 0;
            assert(texts_of(arguments@) =~= fixed + texts_of(extra@).take(0));
            while i < extra.len()
                invariant
                    i <= extra.len(),
                    texts_of(arguments@) == fixed + texts_of(extra@).take(i as int),
                decreases extra.len() - i,
            {
                let ghost before = texts_of(arguments@);
                arguments.push(extra[i].clone());
                proof {
                    assert(texts_of(arguments@) =~= before.push(extra@[i as int]@));
                    assert(texts_of(extra@).take(i + 1) =~= texts_of(extra@).take(i as int).push(
                        extra@[i as int]@,
                    ));
                    assert(texts_of(arguments@) =~= fixed + texts_of(extra@).take(i + 1));
                }
                i += 1;
            }
            assert(texts_of(extra@).take(extra@.len() as int) =~= texts_of(extra@));
        },
        None => {
            arguments.push(String::from_str("--format=%H"));
            assert(texts_of(arguments@) =~= fixed + seq!["--format=%H"@]);
        },
    }
    let ghost before = texts_of(arguments@);
    arguments.push(first.to_string().concat("..").concat(second.as_ref().as_str()));
    proof {
        assert(texts_of(arguments@) =~= before.push(first@ + ".."@ + second@));
        assert(texts_of(arguments@) =~= changes_query_of(first@, second@, format_of(format)));
    }
    arguments
}

/// Whether a line holds anything but white space.
pub open spec fn is_filled(line: Seq<char>) -> bool {
    trimmed(line).len() > 0
}

/// The revisions that a log names: its lines, without the blank ones.
pub open spec fn listed_revisions_of(log: Seq<char>) -> Seq<Seq<char>> {
    lines_of(log).filter(|line: Seq<char>| is_filled(line))
}

/// Whether the text holds anything but white space.
pub fn holds_text(line: &str) -> (b: bool)
    ensures
        b == is_filled(line@),
{
    let v = chars_of(line);
    let (from, to) = trim_bounds(&v, 0);
    proof {
        assert(v@.skip(0) =~= v@);
    }
    from < to
}

/// The revisions between two commits, read from the repository's log of
/// the range, one revision to a line. Blank lines are passed over.
pub fn get_changes_between(log: &str) -> (revisions: Vec<String>)
    ensures
        texts_of(revisions@) == listed_revisions_of(log@),
{
    let rows = lines(log);
    let ghost all = lines_of(log@);
    let ghost filled = |line: Seq<char>| is_filled(line);
    let mut revisions: Vec<String> = Vec::new();
    let mut i: usize = 0;
    proof {
        reveal(Seq::filter);
        assert(all.take(0) =~= Seq::<Seq<char>>::empty());
        assert(texts_of(revisions@) =~= all.take(0).filter(filled));
    }
    while i < rows.len()
        invariant
            i <= rows.len(),
            all == lines_of(log@),
            texts_of(rows@) == all,
            filled == |line: Seq<char>| is_filled(line),
            texts_of(revisions@) == all.take(i as int).filter(filled),
        decreases rows.len() - i,
    {
        let ghost before = texts_of(revisions@);
        let ghost seen = all.take(i as int);
        proof {
            assert(texts_of(rows@)[i as int] == rows@[i as int]@);
            assert(all.take(i + 1) =~= seen.push(all[i as int]));
            seen.lemma_filter_push(all[i as int], filled);
        }
        if holds_text(rows[i].as_str()) {
            revisions.push(rows[i].clone());
            proof {
                assert(texts_of(revisions@) =~= before.push(all[i as int]));
            }
        }
        i += 1;
    }
    proof {
        assert(all.take(rows@.len() as int) =~= all);
    }
    revisions
}

} // verus!
