//! The trailers of a commit message: lines of the form `key: value`.

use vstd::prelude::*;
use vstd::string::StringExecFns;
use crate::ids::CommitHash;
use crate::text::{
    chars_of, compare, first_occurs_at, lines, lines_of, occurs_at, occurs_in, position_of,
    string_of,
    texts_of, Order,
};

verus! {

/// The key of a trailer line: what stands before its first `": "`, or the
/// whole line where it has none.
pub open spec fn trailer_key_of(line: Seq<char>) -> Seq<char> {
    if occurs_in(line, ": "@) {
        line.take(choose|at: int| first_occurs_at(line, ": "@, at))
    } else {
        line
    }
}

/// The value of a trailer line: what stands behind its first `": "`, or
/// nothing where it has none.
pub open spec fn trailer_value_of(line: Seq<char>) -> Seq<char> {
    if occurs_in(line, ": "@) {
        line.skip((choose|at: int| first_occurs_at(line, ": "@, at)) + 2)
    } else {
        Seq::empty()
    }
}

/// The map that the entries make when they are entered in order: of two
/// entries with one key the later stays.
pub open spec fn map_of(entries: Seq<(Seq<char>, Seq<char>)>) -> Map<Seq<char>, Seq<char>>
    decreases entries.len(),
{
    if entries.len() == 0 {
        Map::empty()
    } else {
        map_of(entries.drop_last()).insert(entries.last().0, entries.last().1)
    }
}

/// The trailers that a text lists, one to a line.
pub open spec fn trailers_of(text: Seq<char>) -> Map<Seq<char>, Seq<char>> {
    map_of(lines_of(text).map_values(|line: Seq<char>| (trailer_key_of(line), trailer_value_of(line))))
}

/// The texts of the entries in `s`, in the same order.
pub open spec fn entries_of(s: Seq<(String, String)>) -> Seq<(Seq<char>, Seq<char>)> {
    s.map_values(|e: (String, String)| (e.0@, e.1@))
}

/// The trailers of one commit, by key.
#[derive(Debug, PartialEq, Eq)]
pub struct Trailers {
    entries: Vec<(String, String)>,
}

impl View for Trailers {
    type V = Map<Seq<char>, Seq<char>>;

    closed spec fn view(&self) -> Map<Seq<char>, Seq<char>> {
        map_of(entries_of(self.entries@))
    }
}

/// Where no entry after the first `n` has the key, the map holds for it
/// what the first `n` entries make of it.
proof fn lemma_later_entries_without_key(
    entries: Seq<(Seq<char>, Seq<char>)>,
    n: int,
    key: Seq<char>,
)
    requires
        0 <= n <= entries.len(),
        forall|j: int| n <= j < entries.len() ==> (#[trigger] entries[j]).0 != key,
    ensures
        map_of(entries).contains_key(key) == map_of(entries.take(n)).contains_key(key),
        map_of(entries).contains_key(key) ==> map_of(entries)[key] == map_of(entries.take(n))[key],
    decreases entries.len() - n,
{
    if n == entries.len() {
        assert(entries.take(n) =~= entries);
    } else {
        let init = entries.drop_last();
        assert(init.take(n) =~= entries.take(n));
        lemma_later_entries_without_key(init, n, key);
    }
}

impl Trailers {
    /// The value of the trailer with the given key, if there is one.
    pub fn get(&self, key: &str) -> (value: Option<&String>)
        ensures
            value is Some <==> self@.contains_key(key@),
            value matches Some(text) ==> text@ == self@[key@],
    {
        let ghost entries = entries_of(self.entries@);
        let mut i: usize = self.entries.len();
        while i > 0
            invariant
                i <= self.entries.len(),
                entries == entries_of(self.entries@),
                forall|j: int| i <= j < entries.len() ==> (#[trigger] entries[j]).0 != key@,
            decreases i,
        {
            i -= 1;
            if compare(self.entries[i].0.as_str(), key) == Order::Same {
                proof {
                    assert(entries[i as int].0 == key@);
                    lemma_later_entries_without_key(entries, i + 1, key@);
                    assert(entries.take(i + 1).drop_last() =~= entries.take(i as int));
                }
                return Some(&self.entries[i].1);
            }
            proof {
                assert(entries[i as int].0 != key@);
            }
        }
        proof {
            lemma_later_entries_without_key(entries, 0, key@);
            assert(entries.take(0) =~= Seq::<(Seq<char>, Seq<char>)>::empty());
        }
        None
    }

    /// The entries in the order in which they were read. Entered into a map
    /// in this order, they make the trailers.
    pub fn into_entries(self) -> (entries: Vec<(String, String)>)
        ensures
            map_of(entries_of(entries@)) == self@,
    {
        self.entries
    }
}

/// Reads one trailer line: the key before the first `": "`, the value
/// behind it.
fn read_trailer(line: &str) -> (entry: (String, String))
    ensures
        entry.0@ == trailer_key_of(line@),
        entry.1@ == trailer_value_of(line@),
{
    let v = chars_of(line);
    let sep = chars_of(": ");
    proof {
        reveal_strlit(": ");
        assert(sep@.len() == 2);
    }
    match position_of(&v, &sep) {
        Some(at) => {
            let end: usize = v.len();
            assert(occurs_at(v@, sep@, at as int));
            let behind: usize = at + 2;
            proof {
                let chosen = choose|p: int| first_occurs_at(line@, ": "@, p);
                assert(first_occurs_at(line@, ": "@, at as int));
                assert(chosen == at);
                assert(v@.take(at as int) =~= v@.subrange(0, at as int));
                assert(v@.skip(at + 2) =~= v@.subrange(at + 2, v@.len() as int));
            }
            (string_of(&v, 0, at), string_of(&v, behind, end))
        },
        None => (String::from_str(line), String::new()),
    }
}

impl CommitHash {
    /// The trailers of this commit, read from the repository's listing of
    /// them, one to a line. Of two lines with one key the later stays.
    pub fn read_trailers(&self, listing: &str) -> (trailers: Trailers)
        ensures
            trailers@ == trailers_of(listing@),
    {
        read_listing(listing)
    }
}

/// Reads a listing of trailers, one to a line.
fn read_listing(listing: &str) -> (trailers: Trailers)
    ensures
        trailers@ == trailers_of(listing@),
{
    let rows = lines(listing);
    let ghost all = lines_of(listing@).map_values(
        |line: Seq<char>| (trailer_key_of(line), trailer_value_of(line)),
    );
    let mut entries: Vec<(String, String)> = Vec::new();
    let mut i: usize = 0;
    while i < rows.len()
        invariant
            i <= rows.len(),
            texts_of(rows@) == lines_of(listing@),
            all == lines_of(listing@).map_values(
                |line: Seq<char>| (trailer_key_of(line), trailer_value_of(line)),
            ),
            entries_of(entries@) == all.take(i as int),
        decreases rows.len() - i,
    {
        let ghost before = entries_of(entries@);
        let entry = read_trailer(rows[i].as_str());
        proof {
            assert(texts_of(rows@)[i as int] == rows@[i as int]@);
            assert((entry.0@, entry.1@) == all[i as int]);
        }
        entries.push(entry);
        proof {
            assert(entries_of(entries@) =~= before.push(all[i as int]));
            assert(all.take(i + 1) =~= all.take(i as int).push(all[i as int]));
        }
        i += 1;
    }
    proof {
        assert(all.take(rows@.len() as int) =~= all);
    }
    Trailers { entries }
}

/// The arguments that have the repository amend the last commit with the
/// trailer `key: value`: the message's editor is set to a command that adds
/// the trailer in place.
pub open spec fn add_trailer_of(key: Seq<char>, value: Seq<char>) -> Seq<Seq<char>> {
    seq![
        "-c"@,
        "core.editor=git interpret-trailers --in-place --trailer=\""@ + key + ": "@ + value + "\""@,
        "commit"@,
        "--amend"@,
        "-q"@,
    ]
}

/// The arguments that have the repository amend the last commit with the
/// trailer `key: value`.
pub fn add_trailer(key: &str, value: &str) -> (arguments: Vec<String>)
    ensures
        texts_of(arguments@) == add_trailer_of(key@, value@),
{
    let editor = String::from_str(
        "core.editor=git interpret-trailers --in-place --trailer=\"",
    ).concat(key).concat(": ").concat(value).concat("\"");
    let mut arguments: Vec<String> = Vec::new();
    arguments.push(String::from_str("-c"));
    arguments.push(editor);
    arguments.push(String::from_str("commit"));
    arguments.push(String::from_str("--amend"));
    arguments.push(String::from_str("-q"));
    proof {
        assert(texts_of(arguments@) =~= add_trailer_of(key@, value@));
    }
    arguments
}

} // verus!
