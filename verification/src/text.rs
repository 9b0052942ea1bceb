//! Text helpers over the characters of a string.

use vstd::prelude::*;
use vstd::string::StringExecFns;

verus! {

/// Appends one character to a string. Wraps `String::push`, which is
/// documented to append the given character to the end of the string.
#[verifier::external_body]
pub(crate) fn push_char(s: &mut String, c: char)
    ensures
        final(s)@ == old(s)@.push(c),
{
    s.push(c)
}

/// The characters of `s`, in order.
pub fn chars_of(s: &str) -> (v: Vec<char>)
    ensures
        v@ == s@,
{
    broadcast use vstd::string::axiom_spec_iter;

    let mut v: Vec<char> = Vec::new();
    for c in it: s.chars()
        invariant
            v@ == it.seq().take(it.index() as int),
            it.seq() == s@,
    {
        v.push(c);
    }
    v
}

/// The string made of the characters `v[from..to]`.
pub(crate) fn string_of(v: &Vec<char>, from: usize, to: usize) -> (s: String)
    requires
        from <= to <= v.len(),
    ensures
        s@ == v@.subrange(from as int, to as int),
{
    let mut s = String::new();
    let mut i: usize = from;
    while i < to
        invariant
            from <= i <= to <= v.len(),
            s@ == v@.subrange(from as int, i as int),
        decreases to - i,
    {
        push_char(&mut s, v[i]);
        i += 1;
    }
    s
}

/// The texts of the strings in `s`, in the same order.
pub open spec fn texts_of(s: Seq<String>) -> Seq<Seq<char>> {
    s.map_values(|t: String| t@)
}

/// The parts written one after the other, with `sep` between neighbours.
pub open spec fn joined(parts: Seq<Seq<char>>, sep: Seq<char>) -> Seq<char>
    decreases parts.len(),
{
    if parts.len() == 0 {
        Seq::empty()
    } else if parts.len() == 1 {
        parts[0]
    } else {
        joined(parts.drop_last(), sep) + sep + parts.last()
    }
}

/// Joins the parts, with `sep` between neighbours.
pub fn join(parts: &Vec<String>, sep: &str) -> (s: String)
    ensures
        s@ == joined(texts_of(parts@), sep@),
{
    let mut s = String::new();
    let mut i: usize = 0;
    while i < parts.len()
        invariant
            i <= parts.len(),
            s@ == joined(texts_of(parts@).take(i as int), sep@),
        decreases parts.len() - i,
    {
        let ghost seen = texts_of(parts@).take(i as int);
        let ghost next = texts_of(parts@).take(i + 1);
        proof {
            assert(next.drop_last() =~= seen);
            assert(next.last() == parts@[i as int]@);
        }
        if i > 0 {
            s.append(sep);
        } else {
            proof {
                assert(s@ + parts@[i as int]@ =~= parts@[i as int]@);
            }
        }
        s.append(parts[i].as_str());
        i += 1;
    }
    proof {
        assert(texts_of(parts@).take(parts@.len() as int) =~= texts_of(parts@));
    }
    s
}

/// Whether `a` and `b` have the same first `k` characters.
pub open spec fn agree_upto(a: Seq<char>, b: Seq<char>, k: int) -> bool {
    &&& 0 <= k <= a.len()
    &&& k <= b.len()
    &&& forall|i: int| 0 <= i < k ==> a[i] == b[i]
}

/// Whether `a` comes before `b` in dictionary order: at the first place
/// where they differ, `a` has ended or has the smaller character.
pub open spec fn lex_less(a: Seq<char>, b: Seq<char>) -> bool {
    exists|k: int|
        #[trigger] agree_upto(a, b, k) && {
            ||| k == a.len() && k < b.len()
            ||| k < a.len() && k < b.len() && a[k] < b[k]
        }
}

/// How one text stands to another in dictionary order.
#[derive(Debug, PartialEq, Eq, Clone, Copy, Structural)]
pub enum Order {
    Before,
    Same,
    After,
}

/// Compares two texts in dictionary order.
pub fn compare(a: &str, b: &str) -> (o: Order)
    ensures
        o == Order::Before <==> lex_less(a@, b@),
        o == Order::Same <==> a@ == b@,
        o == Order::After <==> lex_less(b@, a@),
{
    let x = chars_of(a);
    let y = chars_of(b);
    let mut k: usize = 0;
    while k < x.len() && k < y.len() && x[k] == y[k]
        invariant
            agree_upto(x@, y@, k as int),
        decreases x.len() - k,
    {
        k += 1;
    }
    proof {
        lemma_first_difference_decides(x@, y@, k as int);
    }
    if k == x.len() {
        if k == y.len() {
            assert(x@ =~= y@);
            Order::Same
        } else {
            Order::Before
        }
    } else if k == y.len() {
        Order::After
    } else if x[k] < y[k] {
        Order::Before
    } else {
        Order::After
    }
}

/// Where two texts agree up to `k` and differ there (or one ends there),
/// that place alone decides their order.
proof fn lemma_first_difference_decides(a: Seq<char>, b: Seq<char>, k: int)
    requires
        agree_upto(a, b, k),
        k == a.len() || k == b.len() || a[k] != b[k],
    ensures
        lex_less(a, b) <==> (k == a.len() && k < b.len() || k < a.len() && k < b.len() && a[k]
            < b[k]),
        lex_less(b, a) <==> (k == b.len() && k < a.len() || k < a.len() && k < b.len() && b[k]
            < a[k]),
        a == b <==> (k == a.len() && k == b.len()),
{
    assert(agree_upto(b, a, k));
    if lex_less(a, b) {
        let j = choose|j: int|
            #[trigger] agree_upto(a, b, j) && (j == a.len() && j < b.len() || j < a.len() && j
                < b.len() && a[j] < b[j]);
        assert(j == k);
    }
    if lex_less(b, a) {
        let j = choose|j: int|
            #[trigger] agree_upto(b, a, j) && (j == b.len() && j < a.len() || j < b.len() && j
                < a.len() && b[j] < a[j]);
        assert(j == k);
    }
    if k == a.len() && k == b.len() {
        assert(a =~= b);
    }
}

/// Dictionary order never puts a text before itself.
pub proof fn lemma_lex_less_irreflexive(a: Seq<char>)
    ensures
        !lex_less(a, a),
{
}

/// Dictionary order is transitive.
pub proof fn lemma_lex_less_transitive(a: Seq<char>, b: Seq<char>, c: Seq<char>)
    requires
        lex_less(a, b),
        lex_less(b, c),
    ensures
        lex_less(a, c),
{
    let i = choose|i: int|
        #[trigger] agree_upto(a, b, i) && (i == a.len() && i < b.len() || i < a.len() && i
            < b.len() && a[i] < b[i]);
    let j = choose|j: int|
        #[trigger] agree_upto(b, c, j) && (j == b.len() && j < c.len() || j < b.len() && j
            < c.len() && b[j] < c[j]);
    let k = if i <= j {
        i
    } else {
        j
    };
    assert(agree_upto(a, c, k));
}

/// Whether `c` is white space: a character with the Unicode property
/// `White_Space`.
pub open spec fn is_whitespace(c: char) -> bool {
    ||| '\u{9}' <= c <= '\u{d}'
    ||| c == ' '
    ||| c == '\u{85}'
    ||| c == '\u{a0}'
    ||| c == '\u{1680}'
    ||| '\u{2000}' <= c <= '\u{200a}'
    ||| c == '\u{2028}'
    ||| c == '\u{2029}'
    ||| c == '\u{202f}'
    ||| c == '\u{205f}'
    ||| c == '\u{3000}'
}

/// Whether `c` is white space.
pub fn is_space(c: char) -> (b: bool)
    ensures
        b == is_whitespace(c),
{
    ('\u{9}' <= c && c <= '\u{d}') || c == ' ' || c == '\u{85}' || c == '\u{a0}' || c == '\u{1680}'
        || ('\u{2000}' <= c && c <= '\u{200a}') || c == '\u{2028}' || c == '\u{2029}' || c
        == '\u{202f}' || c == '\u{205f}' || c == '\u{3000}'
}

/// `s` without the white space it begins with.
pub open spec fn trim_start(s: Seq<char>) -> Seq<char>
    decreases s.len(),
{
    if s.len() > 0 && is_whitespace(s.first()) {
        trim_start(s.drop_first())
    } else {
        s
    }
}

/// `s` without the white space it ends with.
pub open spec fn trim_end(s: Seq<char>) -> Seq<char>
    decreases s.len(),
{
    if s.len() > 0 && is_whitespace(s.last()) {
        trim_end(s.drop_last())
    } else {
        s
    }
}

/// `s` without the white space around it.
pub open spec fn trimmed(s: Seq<char>) -> Seq<char> {
    trim_end(trim_start(s))
}

/// The characters `v[from..]` without the white space around them, as the
/// bounds of what is left.
pub(crate) fn trim_bounds(v: &Vec<char>, from: usize) -> (bounds: (usize, usize))
    requires
        from <= v.len(),
    ensures
        from <= bounds.0 <= bounds.1 <= v.len(),
        v@.subrange(bounds.0 as int, bounds.1 as int) == trimmed(v@.skip(from as int)),
{
    let mut i: usize = from;
    while i < v.len() && is_space(v[i])
        invariant
            from <= i <= v.len(),
            trim_start(v@.skip(from as int)) == trim_start(v@.skip(i as int)),
        decreases v.len() - i,
    {
        proof {
            assert(v@.skip(i as int).drop_first() =~= v@.skip(i + 1));
        }
        i += 1;
    }
    let mut j: usize = v.len();
    proof {
        assert(v@.skip(i as int) =~= v@.subrange(i as int, j as int));
    }
    while j > i && is_space(v[j - 1])
        invariant
            i <= j <= v.len(),
            trimmed(v@.skip(from as int)) == trim_end(v@.subrange(i as int, j as int)),
        decreases j,
    {
        proof {
            assert(v@.subrange(i as int, j as int).drop_last() =~= v@.subrange(i as int, j - 1));
        }
        j -= 1;
    }
    (i, j)
}

/// The text without the white space around it.
pub fn trim(s: &str) -> (t: String)
    ensures
        t@ == trimmed(s@),
{
    let v = chars_of(s);
    let (i, j) = trim_bounds(&v, 0);
    proof {
        assert(v@.skip(0) =~= v@);
    }
    string_of(&v, i, j)
}

/// `s` without the characters `c` that it begins with.
pub open spec fn strip_start(s: Seq<char>, c: char) -> Seq<char>
    decreases s.len(),
{
    if s.len() > 0 && s.first() == c {
        strip_start(s.drop_first(), c)
    } else {
        s
    }
}

/// `s` without the characters `c` that it ends with.
pub open spec fn strip_end(s: Seq<char>, c: char) -> Seq<char>
    decreases s.len(),
{
    if s.len() > 0 && s.last() == c {
        strip_end(s.drop_last(), c)
    } else {
        s
    }
}

/// `s` without the characters `c` around it.
pub open spec fn stripped(s: Seq<char>, c: char) -> Seq<char> {
    strip_end(strip_start(s, c), c)
}

/// The text without the characters `c` around it.
pub fn trim_matches(s: &str, c: char) -> (t: String)
    ensures
        t@ == stripped(s@, c),
{
    let v = chars_of(s);
    let mut i: usize = 0;
    proof {
        assert(v@.skip(0) =~= v@);
    }
    while i < v.len() && v[i] == c
        invariant
            i <= v.len(),
            strip_start(v@, c) == strip_start(v@.skip(i as int), c),
        decreases v.len() - i,
    {
        proof {
            assert(v@.skip(i as int).drop_first() =~= v@.skip(i + 1));
        }
        i += 1;
    }
    let mut j: usize = v.len();
    proof {
        assert(v@.skip(i as int) =~= v@.subrange(i as int, j as int));
    }
    while j > i && v[j - 1] == c
        invariant
            i <= j <= v.len(),
            stripped(v@, c) == strip_end(v@.subrange(i as int, j as int), c),
        decreases j,
    {
        proof {
            assert(v@.subrange(i as int, j as int).drop_last() =~= v@.subrange(i as int, j - 1));
        }
        j -= 1;
    }
    string_of(&v, i, j)
}

/// How many characters `s` has before its first line feed: all of them,
/// where it has none.
pub open spec fn line_len(s: Seq<char>) -> nat
    decreases s.len(),
{
    if s.len() == 0 || s.first() == '\n' {
        0
    } else {
        1 + line_len(s.drop_first())
    }
}

/// A line as it stood before a line feed: without the carriage return that
/// may end it.
pub open spec fn without_return(line: Seq<char>) -> Seq<char> {
    if line.len() > 0 && line.last() == '\r' {
        line.drop_last()
    } else {
        line
    }
}

/// The lines of a text. A line ends with a line feed, or with a carriage
/// return and a line feed; neither belongs to the line. What follows the
/// last line feed is a line too, unless it is empty.
pub open spec fn lines_of(s: Seq<char>) -> Seq<Seq<char>>
    decreases s.len(),
{
    if s.len() == 0 {
        Seq::empty()
    } else {
        let n = line_len(s) as int;
        if n < s.len() {
            seq![without_return(s.take(n))] + lines_of(s.skip(n + 1))
        } else {
            seq![s]
        }
    }
}

/// Where `s` has no line feed among its first `n` characters and one right
/// after them, or ends there, its first line is `n` long.
proof fn lemma_line_len(s: Seq<char>, n: int)
    requires
        0 <= n <= s.len(),
        forall|i: int| 0 <= i < n ==> s[i] != '\n',
        n == s.len() || s[n] == '\n',
    ensures
        line_len(s) == n,
    decreases n,
{
    if n > 0 {
        let rest = s.drop_first();
        assert forall|i: int| 0 <= i < n - 1 implies rest[i] != '\n' by {
            assert(rest[i] == s[i + 1]);
        }
        lemma_line_len(rest, n - 1);
    }
}

/// The bounds in `v` of each of its lines, in order.
pub open spec fn are_line_bounds(v: Seq<char>, bounds: Seq<(usize, usize)>) -> bool {
    &&& bounds.len() == lines_of(v).len()
    &&& forall|k: int|
        0 <= k < bounds.len() ==> {
            &&& (#[trigger] bounds[k]).0 <= bounds[k].1 <= v.len()
            &&& v.subrange(bounds[k].0 as int, bounds[k].1 as int) == lines_of(v)[k]
        }
}

/// Finds the lines of `v`.
pub(crate) fn line_bounds(v: &Vec<char>) -> (bounds: Vec<(usize, usize)>)
    ensures
        are_line_bounds(v@, bounds@),
{
    let mut bounds: Vec<(usize, usize)> = Vec::new();
    let mut start: usize = 0;
    let mut i: usize = 0;
    proof {
        assert(v@.skip(0) =~= v@);
    }
    while i < v.len()
        invariant
            start <= i <= v.len(),
            forall|k: int| start <= k < i ==> v@[k] != '\n',
            lines_of(v@) == Seq::new(
                bounds@.len(),
                |k: int| v@.subrange(bounds@[k].0 as int, bounds@[k].1 as int),
            ) + lines_of(v@.skip(start as int)),
            forall|k: int|
                0 <= k < bounds@.len() ==> (#[trigger] bounds@[k]).0 <= bounds@[k].1 <= v.len(),
        decreases v.len() - i,
    {
        if v[i] == '\n' {
            let end: usize = if i > start && v[i - 1] == '\r' {
                i - 1
            } else {
                i
            };
            let ghost rest = v@.skip(start as int);
            let ghost done = Seq::new(
                bounds@.len(),
                |k: int| v@.subrange(bounds@[k].0 as int, bounds@[k].1 as int),
            );
            proof {
                assert forall|k: int| 0 <= k < i - start implies rest[k] != '\n' by {
                    assert(rest[k] == v@[start + k]);
                }
                lemma_line_len(rest, i - start);
                assert(rest.take(i - start) =~= v@.subrange(start as int, i as int));
                assert(without_return(v@.subrange(start as int, i as int)) =~= v@.subrange(
                    start as int,
                    end as int,
                ));
                assert(rest.skip(i - start + 1) =~= v@.skip(i + 1));
            }
            bounds.push((start, end));
            proof {
                assert(Seq::new(
                    bounds@.len(),
                    |k: int| v@.subrange(bounds@[k].0 as int, bounds@[k].1 as int),
                ) =~= done + seq![v@.subrange(start as int, end as int)]);
            }
            start = i + 1;
        }
        i += 1;
    }
    let ghost rest = v@.skip(start as int);
    let ghost done = Seq::new(
        bounds@.len(),
        |k: int| v@.subrange(bounds@[k].0 as int, bounds@[k].1 as int),
    );
    if start < v.len() {
        proof {
            assert forall|k: int| 0 <= k < rest.len() implies rest[k] != '\n' by {
                assert(rest[k] == v@[start + k]);
            }
            lemma_line_len(rest, rest.len() as int);
            assert(rest =~= v@.subrange(start as int, v@.len() as int));
        }
        bounds.push((start, v.len()));
        proof {
            assert(Seq::new(
                bounds@.len(),
                |k: int| v@.subrange(bounds@[k].0 as int, bounds@[k].1 as int),
            ) =~= done + seq![rest]);
        }
    } else {
        proof {
            assert(lines_of(rest) =~= Seq::<Seq<char>>::empty());
            assert(done + lines_of(rest) =~= done);
        }
    }
    bounds
}

/// The lines of a text. A line ends with a line feed, or with a carriage
/// return and a line feed; neither belongs to the line. What follows the
/// last line feed is a line too, unless it is empty.
pub fn lines(s: &str) -> (all: Vec<String>)
    ensures
        texts_of(all@) == lines_of(s@),
{
    let v = chars_of(s);
    let bounds = line_bounds(&v);
    let mut all: Vec<String> = Vec::new();
    let mut k: usize = 0;
    while k < bounds.len()
        invariant
            k <= bounds.len(),
            are_line_bounds(v@, bounds@),
            texts_of(all@) == lines_of(v@).take(k as int),
        decreases bounds.len() - k,
    {
        let ghost before = texts_of(all@);
        let (from, to) = bounds[k];
        all.push(string_of(&v, from, to));
        proof {
            assert(texts_of(all@) =~= before.push(lines_of(v@)[k as int]));
            assert(lines_of(v@).take(k + 1) =~= lines_of(v@).take(k as int).push(
                lines_of(v@)[k as int],
            ));
        }
        k += 1;
    }
    proof {
        assert(lines_of(v@).take(bounds@.len() as int) =~= lines_of(v@));
    }
    all
}

/// How many characters `s` has before its first white space: all of them,
/// where it has none.
pub open spec fn word_len(s: Seq<char>) -> nat
    decreases s.len(),
{
    if s.len() == 0 || is_whitespace(s.first()) {
        0
    } else {
        1 + word_len(s.drop_first())
    }
}

/// A word is no longer than the text it begins.
pub proof fn lemma_word_len_bound(s: Seq<char>)
    ensures
        word_len(s) <= s.len(),
    decreases s.len(),
{
    if s.len() > 0 && !is_whitespace(s.first()) {
        lemma_word_len_bound(s.drop_first());
    }
}

/// The words of a text: its longest runs of characters that are not white
/// space, in order.
pub open spec fn words_of(s: Seq<char>) -> Seq<Seq<char>>
    decreases s.len(),
{
    if s.len() == 0 {
        Seq::empty()
    } else if is_whitespace(s.first()) {
        words_of(s.drop_first())
    } else {
        let n = word_len(s) as int;
        proof {
            lemma_word_len_bound(s);
        }
        seq![s.take(n)] + words_of(s.skip(n))
    }
}

/// Where `s` has no white space among its first `n` characters and some
/// right after them, or ends there, its first word is `n` long.
proof fn lemma_word_len(s: Seq<char>, n: int)
    requires
        0 <= n <= s.len(),
        forall|i: int| 0 <= i < n ==> !is_whitespace(s[i]),
        n == s.len() || is_whitespace(s[n]),
    ensures
        word_len(s) == n,
    decreases n,
{
    if n > 0 {
        let rest = s.drop_first();
        assert forall|i: int| 0 <= i < n - 1 implies !is_whitespace(rest[i]) by {
            assert(rest[i] == s[i + 1]);
        }
        lemma_word_len(rest, n - 1);
    }
}

/// The words of the characters `v[from..to]`.
pub(crate) fn words_between(v: &Vec<char>, from: usize, to: usize) -> (all: Vec<String>)
    requires
        from <= to <= v.len(),
    ensures
        texts_of(all@) == words_of(v@.subrange(from as int, to as int)),
{
    let ghost text = v@.subrange(from as int, to as int);
    let mut all: Vec<String> = Vec::new();
    let mut i: usize = from;
    proof {
        assert(text.skip(0) =~= text);
        assert(texts_of(all@) =~= Seq::<Seq<char>>::empty());
    }
    while i < to
        invariant
            from <= i <= to <= v.len(),
            text == v@.subrange(from as int, to as int),
            words_of(text) == texts_of(all@) + words_of(text.skip(i - from)),
        decreases to - i,
    {
        let ghost rest = text.skip(i - from);
        let ghost before = texts_of(all@);
        proof {
            assert(rest.first() == v@[i as int]);
        }
        if is_space(v[i]) {
            proof {
                assert(rest.drop_first() =~= text.skip(i + 1 - from));
            }
            i += 1;
        } else {
            let mut j: usize = i + 1;
            while j < to && !is_space(v[j])
                invariant
                    i < j <= to <= v.len(),
                    forall|k: int| i <= k < j ==> !is_whitespace(v@[k]),
                decreases to - j,
            {
                j += 1;
            }
            proof {
                assert forall|k: int| 0 <= k < j - i implies !is_whitespace(rest[k]) by {
                    assert(rest[k] == v@[i + k]);
                }
                if j < to {
                    assert(rest[j - i] == v@[j as int]);
                }
                lemma_word_len(rest, j - i);
                assert(rest.take(j - i) =~= v@.subrange(i as int, j as int));
                assert(rest.skip(j - i) =~= text.skip(j - from));
            }
            all.push(string_of(v, i, j));
            proof {
                assert(texts_of(all@) =~= before + seq![v@.subrange(i as int, j as int)]);
            }
            i = j;
        }
    }
    proof {
        assert(text.skip(to - from) =~= Seq::<char>::empty());
        assert(texts_of(all@) + Seq::<Seq<char>>::empty() =~= texts_of(all@));
    }
    all
}

/// The words of a text: its longest runs of characters that are not white
/// space, in order.
pub fn split_whitespace(s: &str) -> (all: Vec<String>)
    ensures
        texts_of(all@) == words_of(s@),
{
    let v = chars_of(s);
    proof {
        assert(v@.subrange(0, v@.len() as int) =~= v@);
    }
    words_between(&v, 0, v.len())
}

/// Whether `part` stands in `s` from position `at` on.
pub open spec fn occurs_at(s: Seq<char>, part: Seq<char>, at: int) -> bool {
    0 <= at && at + part.len() <= s.len() && s.subrange(at, at + part.len()) == part
}

/// Whether `part` stands somewhere in `s`.
pub open spec fn occurs_in(s: Seq<char>, part: Seq<char>) -> bool {
    exists|at: int| occurs_at(s, part, at)
}

/// Whether `part` stands in `v` from position `at` on.
pub(crate) fn stands_at(v: &Vec<char>, part: &Vec<char>, at: usize) -> (b: bool)
    ensures
        b == occurs_at(v@, part@, at as int),
{
    if part.len() > v.len() || at > v.len() - part.len() {
        return false;
    }
    let mut k: usize = 0;
    while k < part.len()
        invariant
            k <= part.len(),
            at + part.len() <= v.len(),
            forall|i: int| 0 <= i < k ==> v@[at + i] == part@[i],
        decreases part.len() - k,
    {
        if v[at + k] != part[k] {
            proof {
                assert(v@.subrange(at as int, at + part.len())[k as int] == v@[at + k]);
            }
            return false;
        }
        k += 1;
    }
    proof {
        assert(v@.subrange(at as int, at + part.len()) =~= part@);
    }
    true
}

/// Whether `at` is the first position from which `part` stands in `s`.
pub open spec fn first_occurs_at(s: Seq<char>, part: Seq<char>, at: int) -> bool {
    occurs_at(s, part, at) && forall|i: int| 0 <= i < at ==> !occurs_at(s, part, i)
}

/// The first position from which `part` stands in `v`, if there is one.
pub(crate) fn position_of(v: &Vec<char>, part: &Vec<char>) -> (found: Option<usize>)
    ensures
        found is Some <==> occurs_in(v@, part@),
        found matches Some(at) ==> first_occurs_at(v@, part@, at as int),
{
    if part.len() > v.len() {
        return None;
    }
    let last: usize = v.len() - part.len();
    let mut at: usize = 0;
    loop
        invariant
            last == v.len() - part.len(),
            at <= last,
            forall|i: int| 0 <= i < at ==> !occurs_at(v@, part@, i),
        decreases last - at,
    {
        if stands_at(v, part, at) {
            return Some(at);
        }
        if at == last {
            return None;
        }
        at += 1;
    }
}

/// Whether `part` stands somewhere in the text.
pub fn contains(s: &str, part: &str) -> (b: bool)
    ensures
        b == occurs_in(s@, part@),
{
    let v = chars_of(s);
    let p = chars_of(part);
    position_of(&v, &p).is_some()
}

/// The first word of a text, if it has one.
pub fn first_word(s: &str) -> (word: Option<String>)
    ensures
        word is Some <==> words_of(s@).len() > 0,
        word matches Some(w) ==> w@ == words_of(s@)[0],
{
    let words = split_whitespace(s);
    if words.len() > 0 {
        proof {
            assert(texts_of(words@)[0] == words@[0]@);
        }
        Some(words[0].clone())
    } else {
        None
    }
}

} // verus!
