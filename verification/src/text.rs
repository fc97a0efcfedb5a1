//! Character-level text primitives shared by the parsers: whitespace and
//! quote trimming, splitting on a separator, joining, decimal rendering and
//! the lexicographic order of strings.
use vstd::prelude::*;

verus! {

/// Unicode `White_Space`, the property that `char::is_whitespace` tests.
pub open spec fn is_space(c: char) -> bool {
    let u = c as u32;
    ||| 9 <= u <= 13
    ||| u == 32
    ||| u == 0x85
    ||| u == 0xA0
    ||| u == 0x1680
    ||| 0x2000 <= u <= 0x200A
    ||| u == 0x2028
    ||| u == 0x2029
    ||| u == 0x202F
    ||| u == 0x205F
    ||| u == 0x3000
}

/// A single or a double quotation mark.
pub open spec fn is_quote(c: char) -> bool {
    c == '\'' || c == '"'
}

/// The two classes of characters that get trimmed off the ends of a value.
#[derive(Clone, Copy, PartialEq, Eq, Structural, Debug)]
pub enum CharClass {
    Space,
    Quote,
}

pub open spec fn in_class(c: char, cls: CharClass) -> bool {
    match cls {
        CharClass::Space => is_space(c),
        CharClass::Quote => is_quote(c),
    }
}

pub fn is_whitespace(c: char) -> (r: bool)
    ensures
        r == is_space(c),
{
    let u = c as u32;
    (9 <= u && u <= 13) || u == 32 || u == 0x85 || u == 0xA0 || u == 0x1680 || (0x2000 <= u && u
        <= 0x200A) || u == 0x2028 || u == 0x2029 || u == 0x202F || u == 0x205F || u == 0x3000
}

pub fn char_in_class(c: char, cls: CharClass) -> (r: bool)
    ensures
        r == in_class(c, cls),
{
    match cls {
        CharClass::Space => is_whitespace(c),
        CharClass::Quote => c == '\'' || c == '"',
    }
}

/// `s` without the characters of class `cls` at its start.
pub open spec fn trim_start_by(s: Seq<char>, cls: CharClass) -> Seq<char>
    decreases s.len(),
{
    if s.len() > 0 && in_class(s[0], cls) {
        trim_start_by(s.drop_first(), cls)
    } else {
        s
    }
}

/// `s` without the characters of class `cls` at its end.
pub open spec fn trim_end_by(s: Seq<char>, cls: CharClass) -> Seq<char>
    decreases s.len(),
{
    if s.len() > 0 && in_class(s.last(), cls) {
        trim_end_by(s.drop_last(), cls)
    } else {
        s
    }
}

/// `s` without the characters of class `cls` at either end.
pub open spec fn trim_by(s: Seq<char>, cls: CharClass) -> Seq<char> {
    trim_end_by(trim_start_by(s, cls), cls)
}

/// What `str::trim` gives back.
pub open spec fn trim(s: Seq<char>) -> Seq<char> {
    trim_by(s, CharClass::Space)
}

/// What `str::trim_matches` gives back with the pattern "a quotation mark".
pub open spec fn strip_quotes(s: Seq<char>) -> Seq<char> {
    trim_by(s, CharClass::Quote)
}

/// The pieces of `s` between the occurrences of `sep`, as `str::split` yields
/// them: scanning at `p`, with the current piece started at `start`.
pub open spec fn split_rec(s: Seq<char>, sep: char, start: int, p: int) -> Seq<Seq<char>>
    decreases s.len() - p,
{
    if p >= s.len() {
        seq![s.subrange(start, s.len() as int)]
    } else if s[p] == sep {
        seq![s.subrange(start, p)] + split_rec(s, sep, p + 1, p + 1)
    } else {
        split_rec(s, sep, start, p + 1)
    }
}

/// What `str::split(sep)` yields.
pub open spec fn split_on(s: Seq<char>, sep: char) -> Seq<Seq<char>> {
    split_rec(s, sep, 0, 0)
}

/// The parts put one after the other with `sep` between each two of them.
pub open spec fn join(parts: Seq<Seq<char>>, sep: Seq<char>) -> Seq<char>
    decreases parts.len(),
{
    if parts.len() == 0 {
        seq![]
    } else if parts.len() == 1 {
        parts[0]
    } else {
        join(parts.drop_last(), sep) + sep + parts.last()
    }
}

/// The parts that are not empty, in their order.
pub open spec fn non_empty(parts: Seq<Seq<char>>) -> Seq<Seq<char>>
    decreases parts.len(),
{
    if parts.len() == 0 {
        seq![]
    } else if parts[0].len() == 0 {
        non_empty(parts.drop_first())
    } else {
        seq![parts[0]] + non_empty(parts.drop_first())
    }
}

/// The index of the first `c` in `s` at or after `p`.
pub open spec fn find_from(s: Seq<char>, c: char, p: int) -> Option<int>
    decreases s.len() - p,
{
    if p >= s.len() {
        None
    } else if s[p] == c {
        Some(p)
    } else {
        find_from(s, c, p + 1)
    }
}

pub proof fn lemma_find_from_bounds(s: Seq<char>, c: char, p: int)
    requires
        0 <= p,
    ensures
        match find_from(s, c, p) {
            Some(k) => p <= k < s.len() && s[k] == c,
            None => true,
        },
    decreases s.len() - p,
{
    if p < s.len() && s[p] != c {
        lemma_find_from_bounds(s, c, p + 1);
    }
}

/// The first `c` in `v[from..hi]`, as an index into `v`; the search is that
/// of `find_from` in the text `v[lo..hi]`.
pub fn find_in(v: &Vec<char>, lo: usize, from: usize, hi: usize, c: char) -> (r: Option<usize>)
    requires
        lo <= from <= hi <= v.len(),
    ensures
        match r {
            Some(k) => from <= k < hi && v@[k as int] == c && find_from(
                v@.subrange(lo as int, hi as int),
                c,
                from - lo,
            ) == Some(k - lo),
            None => find_from(v@.subrange(lo as int, hi as int), c, from - lo) is None,
        },
{
    let ghost s = v@.subrange(lo as int, hi as int);
    let mut q: usize = from;
    while q < hi
        invariant
            lo <= from <= q <= hi <= v.len(),
            s == v@.subrange(lo as int, hi as int),
            find_from(s, c, from - lo) == find_from(s, c, q - lo),
        decreases hi - q,
    {
        assert(s[q - lo] == v@[q as int]);
        if v[q] == c {
            return Some(q);
        }
        q = q + 1;
    }
    None
}

pub open spec fn digit_char(d: nat) -> char {
    if d == 0 {
        '0'
    } else if d == 1 {
        '1'
    } else if d == 2 {
        '2'
    } else if d == 3 {
        '3'
    } else if d == 4 {
        '4'
    } else if d == 5 {
        '5'
    } else if d == 6 {
        '6'
    } else if d == 7 {
        '7'
    } else if d == 8 {
        '8'
    } else {
        '9'
    }
}

/// The decimal digits of `n`, without leading zeros, as `{}` prints a number.
pub open spec fn decimal(n: nat) -> Seq<char>
    decreases n,
{
    if n < 10 {
        seq![digit_char(n)]
    } else {
        decimal(n / 10).push(digit_char(n % 10))
    }
}

/// Strict lexicographic order by code point, which is the order of `String`.
pub open spec fn lex_lt(a: Seq<char>, b: Seq<char>) -> bool
    decreases a.len(),
{
    if a.len() == 0 {
        b.len() > 0
    } else if b.len() == 0 {
        false
    } else if a[0] != b[0] {
        (a[0] as int) < (b[0] as int)
    } else {
        lex_lt(a.drop_first(), b.drop_first())
    }
}

pub open spec fn lex_le(a: Seq<char>, b: Seq<char>) -> bool {
    lex_lt(a, b) || a == b
}

pub proof fn lemma_lex_irreflexive(a: Seq<char>)
    ensures
        !lex_lt(a, a),
    decreases a.len(),
{
    if a.len() > 0 {
        lemma_lex_irreflexive(a.drop_first());
    }
}

pub proof fn lemma_lex_transitive(a: Seq<char>, b: Seq<char>, c: Seq<char>)
    requires
        lex_lt(a, b),
        lex_lt(b, c),
    ensures
        lex_lt(a, c),
    decreases a.len(),
{
    if a.len() > 0 && b.len() > 0 && c.len() > 0 && a[0] == b[0] && b[0] == c[0] {
        lemma_lex_transitive(a.drop_first(), b.drop_first(), c.drop_first());
    }
}

pub proof fn lemma_lex_total(a: Seq<char>, b: Seq<char>)
    ensures
        lex_lt(a, b) || lex_lt(b, a) || a == b,
    decreases a.len(),
{
    if a.len() > 0 && b.len() > 0 {
        if a[0] == b[0] {
            lemma_lex_total(a.drop_first(), b.drop_first());
            if a.drop_first() == b.drop_first() {
                assert(a =~= seq![a[0]] + a.drop_first());
                assert(b =~= seq![b[0]] + b.drop_first());
            }
        } else {
            assert((a[0] as int) != (b[0] as int));
        }
    } else if a.len() == 0 && b.len() == 0 {
        assert(a =~= b);
    }
}

pub proof fn lemma_lex_asymmetric(a: Seq<char>, b: Seq<char>)
    requires
        lex_lt(a, b),
    ensures
        !lex_lt(b, a),
        a != b,
{
    lemma_lex_irreflexive(a);
    if lex_lt(b, a) {
        lemma_lex_transitive(a, b, a);
    }
}

/// Trimming keeps a run of adjacent characters: what is left of `s` is
/// `s[k..len]` for some `k`.
pub proof fn lemma_trim_start_is_suffix(s: Seq<char>, cls: CharClass) -> (k: int)
    ensures
        0 <= k <= s.len(),
        trim_start_by(s, cls) == s.subrange(k, s.len() as int),
    decreases s.len(),
{
    if s.len() > 0 && in_class(s[0], cls) {
        let k1 = lemma_trim_start_is_suffix(s.drop_first(), cls);
        assert(s.drop_first().subrange(k1, s.len() - 1) =~= s.subrange(k1 + 1, s.len() as int));
        k1 + 1
    } else {
        assert(s.subrange(0, s.len() as int) =~= s);
        0
    }
}

/// What is left of `s` once its end is trimmed is `s[0..k]` for some `k`.
pub proof fn lemma_trim_end_is_prefix(s: Seq<char>, cls: CharClass) -> (k: int)
    ensures
        0 <= k <= s.len(),
        trim_end_by(s, cls) == s.subrange(0, k),
    decreases s.len(),
{
    if s.len() > 0 && in_class(s.last(), cls) {
        let k1 = lemma_trim_end_is_prefix(s.drop_last(), cls);
        assert(s.drop_last().subrange(0, k1) =~= s.subrange(0, k1));
        k1
    } else {
        assert(s.subrange(0, s.len() as int) =~= s);
        s.len() as int
    }
}

/// What is left of `s` once both ends are trimmed is `s[a..b]`.
pub proof fn lemma_trim_is_slice(s: Seq<char>, cls: CharClass) -> (r: (int, int))
    ensures
        0 <= r.0 <= r.1 <= s.len(),
        trim_by(s, cls) == s.subrange(r.0, r.1),
{
    let a = lemma_trim_start_is_suffix(s, cls);
    let t = s.subrange(a, s.len() as int);
    let b = lemma_trim_end_is_prefix(t, cls);
    assert(t.subrange(0, b) =~= s.subrange(a, a + b));
    (a, a + b)
}

/// Trimming leaves no character of the class at either end.
pub proof fn lemma_trim_ends(s: Seq<char>, cls: CharClass)
    ensures
        trim_by(s, cls).len() == 0 || (!in_class(trim_by(s, cls)[0], cls) && !in_class(
            trim_by(s, cls).last(),
            cls,
        )),
    decreases s.len(),
{
    let t = trim_start_by(s, cls);
    lemma_trim_start_stops(s, cls);
    lemma_trim_end_stops(t, cls);
    let k = lemma_trim_end_is_prefix(t, cls);
    if k > 0 {
        assert(trim_by(s, cls)[0] == t[0]);
    }
}

proof fn lemma_trim_start_stops(s: Seq<char>, cls: CharClass)
    ensures
        trim_start_by(s, cls).len() == 0 || !in_class(trim_start_by(s, cls)[0], cls),
    decreases s.len(),
{
    if s.len() > 0 && in_class(s[0], cls) {
        lemma_trim_start_stops(s.drop_first(), cls);
    }
}

proof fn lemma_trim_end_stops(s: Seq<char>, cls: CharClass)
    ensures
        trim_end_by(s, cls).len() == 0 || !in_class(trim_end_by(s, cls).last(), cls),
    decreases s.len(),
{
    if s.len() > 0 && in_class(s.last(), cls) {
        lemma_trim_end_stops(s.drop_last(), cls);
    }
}

/// Whether `c` does not occur in `s`.
pub open spec fn lacks(s: Seq<char>, c: char) -> bool {
    forall|i: int| 0 <= i < s.len() ==> s[i] != c
}

/// Scanning over characters other than the separator changes nothing.
proof fn lemma_split_skip(s: Seq<char>, sep: char, start: int, p: int, k: int)
    requires
        0 <= p <= k <= s.len(),
        forall|i: int| p <= i < k ==> s[i] != sep,
    ensures
        split_rec(s, sep, start, p) == split_rec(s, sep, start, k),
    decreases k - p,
{
    if p < k {
        lemma_split_skip(s, sep, start, p + 1, k);
    }
}

/// Splitting `x + y` past `x` is splitting `y`.
proof fn lemma_split_shift(x: Seq<char>, y: Seq<char>, sep: char, start: int, p: int)
    requires
        0 <= start <= p <= y.len(),
    ensures
        split_rec(x + y, sep, x.len() + start, x.len() + p) == split_rec(y, sep, start, p),
    decreases y.len() - p,
{
    let s = x + y;
    if p < y.len() {
        assert(s[x.len() + p] == y[p]);
        if y[p] == sep {
            assert(s.subrange(x.len() + start, x.len() + p) =~= y.subrange(start, p));
            lemma_split_shift(x, y, sep, p + 1, p + 1);
        } else {
            lemma_split_shift(x, y, sep, start, p + 1);
        }
    } else {
        assert(s.subrange(x.len() + start, s.len() as int) =~= y.subrange(start, y.len() as int));
    }
}

/// A text without the separator splits into itself alone.
pub proof fn lemma_split_single(a: Seq<char>, sep: char)
    requires
        lacks(a, sep),
    ensures
        split_on(a, sep) == seq![a],
{
    lemma_split_skip(a, sep, 0, 0, a.len() as int);
    assert(a.subrange(0, a.len() as int) =~= a);
}

/// A text `a`, the separator, then `b`, where `a` lacks the separator,
/// splits into `a` followed by the pieces of `b`.
pub proof fn lemma_split_front(a: Seq<char>, b: Seq<char>, sep: char)
    requires
        lacks(a, sep),
    ensures
        split_on(a + seq![sep] + b, sep) == seq![a] + split_on(b, sep),
{
    let x = a + seq![sep];
    let s = x + b;
    assert(a + seq![sep] + b == s);
    assert forall|i: int| 0 <= i < a.len() implies s[i] != sep by {
        assert(s[i] == a[i]);
    }
    lemma_split_skip(s, sep, 0, 0, a.len() as int);
    assert(s[a.len() as int] == sep);
    assert(s.subrange(0, a.len() as int) =~= a);
    lemma_split_shift(x, b, sep, 0, 0);
}

/// Joining puts the first part, the separator, and the join of the rest.
pub proof fn lemma_join_front(parts: Seq<Seq<char>>, sep: Seq<char>)
    requires
        parts.len() >= 2,
    ensures
        join(parts, sep) == parts[0] + sep + join(parts.drop_first(), sep),
    decreases parts.len(),
{
    let dl = parts.drop_last();
    let df = parts.drop_first();
    if parts.len() > 2 {
        lemma_join_front(dl, sep);
        assert(dl.drop_first() =~= df.drop_last());
        assert(dl[0] == parts[0]);
        assert(df.last() == parts.last());
        assert(join(parts, sep) == join(dl, sep) + sep + parts.last());
        assert(join(df, sep) == join(df.drop_last(), sep) + sep + df.last());
        assert(join(parts, sep) =~= parts[0] + sep + join(df, sep));
    } else {
        assert(dl =~= seq![parts[0]]);
        assert(df =~= seq![parts[1]]);
        assert(join(dl, sep) == parts[0]);
        assert(join(df, sep) == parts[1]);
        assert(join(parts, sep) =~= parts[0] + sep + join(df, sep));
    }
}

/// Parts none of which holds the separator come back from splitting their
/// join.
pub proof fn lemma_split_join(parts: Seq<Seq<char>>, sep: char)
    requires
        parts.len() >= 1,
        forall|i: int| 0 <= i < parts.len() ==> lacks(#[trigger] parts[i], sep),
    ensures
        split_on(join(parts, seq![sep]), sep) == parts,
    decreases parts.len(),
{
    if parts.len() == 1 {
        assert(lacks(parts[0], sep));
        lemma_split_single(parts[0], sep);
        assert(seq![parts[0]] =~= parts);
    } else {
        let rest = parts.drop_first();
        assert forall|i: int| 0 <= i < rest.len() implies lacks(#[trigger] rest[i], sep) by {
            assert(rest[i] == parts[i + 1]);
        }
        lemma_split_join(rest, sep);
        lemma_join_front(parts, seq![sep]);
        assert(lacks(parts[0], sep));
        lemma_split_front(parts[0], join(rest, seq![sep]), sep);
        assert(seq![parts[0]] + rest =~= parts);
    }
}

/// Joining parts that lack a character with a separator that lacks it
/// gives a text that lacks it.
pub proof fn lemma_join_lacks(parts: Seq<Seq<char>>, sep: Seq<char>, c: char)
    requires
        lacks(sep, c),
        forall|i: int| 0 <= i < parts.len() ==> lacks(#[trigger] parts[i], c),
    ensures
        lacks(join(parts, sep), c),
    decreases parts.len(),
{
    if parts.len() == 1 {
        assert(lacks(parts[0], c));
    } else if parts.len() > 1 {
        let dl = parts.drop_last();
        assert forall|i: int| 0 <= i < dl.len() implies lacks(#[trigger] dl[i], c) by {
            assert(dl[i] == parts[i]);
        }
        lemma_join_lacks(dl, sep, c);
        assert(lacks(parts.last(), c));
        let a = join(dl, sep);
        let r = a + sep + parts.last();
        assert forall|k: int| 0 <= k < r.len() implies r[k] != c by {
            if k < a.len() {
                assert(r[k] == a[k]);
            } else if k < a.len() + sep.len() {
                assert(r[k] == sep[k - a.len()]);
            } else {
                assert(r[k] == parts.last()[k - a.len() - sep.len()]);
            }
        }
    }
}

/// The parts behind the first each with a space in front.
pub open spec fn spaced(parts: Seq<Seq<char>>) -> Seq<Seq<char>> {
    Seq::new(
        parts.len(),
        |i: int|
            if i == 0 {
                parts[i]
            } else {
                seq![' '] + parts[i]
            },
    )
}

/// Joining with a comma and a space is joining with a comma the parts
/// after the first each with a space in front.
pub proof fn lemma_join_comma_space(parts: Seq<Seq<char>>)
    ensures
        join(parts, seq![',', ' ']) == join(spaced(parts), seq![',']),
    decreases parts.len(),
{
    if parts.len() >= 2 {
        lemma_join_comma_space(parts.drop_last());
        assert(spaced(parts.drop_last()) =~= spaced(parts).drop_last());
        assert(spaced(parts).last() == seq![' '] + parts.last());
        assert(join(parts, seq![',', ' ']) =~= join(spaced(parts), seq![',']));
    } else if parts.len() == 1 {
        assert(spaced(parts)[0] == parts[0]);
    }
}

/// Trimming a class off a text that neither starts nor ends with it leaves
/// it as it is.
pub proof fn lemma_trim_untouched(s: Seq<char>, cls: CharClass)
    requires
        s.len() > 0 ==> !in_class(s[0], cls) && !in_class(s.last(), cls),
    ensures
        trim_by(s, cls) == s,
{
}

/// Trimming off a leading character of the class is trimming the rest.
pub proof fn lemma_trim_leading(c: char, s: Seq<char>, cls: CharClass)
    requires
        in_class(c, cls),
    ensures
        trim_by(seq![c] + s, cls) == trim_by(s, cls),
{
    assert((seq![c] + s).drop_first() =~= s);
}

/// Trimming off a trailing character of the class is trimming the rest.
pub proof fn lemma_trim_trailing(s: Seq<char>, c: char, cls: CharClass)
    requires
        in_class(c, cls),
        s.len() > 0 ==> !in_class(s[0], cls),
    ensures
        trim_by(s + seq![c], cls) == trim_end_by(s, cls),
{
    let t = s + seq![c];
    assert(t.drop_last() =~= s);
    if s.len() == 0 {
        assert(t.drop_first() =~= s);
        assert(trim_start_by(s, cls) == s);
        assert(trim_start_by(t, cls) == trim_start_by(t.drop_first(), cls));
        assert(trim_start_by(t, cls) == s);
    } else {
        assert(t[0] == s[0]);
        assert(trim_start_by(t, cls) == t);
        assert(t.last() == c);
        assert(trim_end_by(t, cls) == trim_end_by(t.drop_last(), cls));
    }
}

/// The parts that `non_empty` keeps are all non-empty.
pub proof fn lemma_non_empty_parts(parts: Seq<Seq<char>>)
    ensures
        forall|i: int| 0 <= i < non_empty(parts).len() ==> (#[trigger] non_empty(parts)[i]).len() > 0,
    decreases parts.len(),
{
    if parts.len() > 0 {
        lemma_non_empty_parts(parts.drop_first());
        let rest = non_empty(parts.drop_first());
        if parts[0].len() > 0 {
            assert forall|i: int| 0 <= i < non_empty(parts).len() implies (#[trigger] non_empty(
                parts,
            )[i]).len() > 0 by {
                if i > 0 {
                    assert(non_empty(parts)[i] == rest[i - 1]);
                }
            }
        }
    }
}

/// The characters of `s`, one by one.
pub fn to_chars(s: &str) -> (v: Vec<char>)
    ensures
        v@ == s@,
{
    let mut v: Vec<char> = Vec::new();
    for c in it: s.chars()
        invariant
            v@ == it.seq().take(it.index() as int),
            it.seq() == s@,
    {
        v.push(c);
    }
    v
}

/// `String`'s `FromIterator<char>`: the string made of the given characters.
#[verifier::external_body]
pub(crate) fn string_from_chars(cs: &[char]) -> (s: String)
    ensures
        s@ == cs@,
{
    cs.iter().collect()
}

/// The characters `v[lo..hi]` as a `String`.
pub fn string_of_range(v: &Vec<char>, lo: usize, hi: usize) -> (s: String)
    requires
        lo <= hi <= v.len(),
    ensures
        s@ == v@.subrange(lo as int, hi as int),
{
    let mut part: Vec<char> = Vec::new();
    let mut i: usize = lo;
    while i < hi
        invariant
            lo <= i <= hi <= v.len(),
            part@ == v@.subrange(lo as int, i as int),
        decreases hi - i,
    {
        part.push(v[i]);
        i = i + 1;
        assert(part@ =~= v@.subrange(lo as int, i as int));
    }
    string_from_chars(part.as_slice())
}

/// Bounds of the pieces of `v[lo..hi]` between the occurrences of `sep`.
pub fn split_ranges(v: &Vec<char>, lo: usize, hi: usize, sep: char) -> (r: Vec<(usize, usize)>)
    requires
        lo <= hi <= v.len(),
    ensures
        r.len() == split_on(v@.subrange(lo as int, hi as int), sep).len(),
        forall|i: int|
            0 <= i < r.len() ==> lo <= (#[trigger] r[i]).0 <= r[i].1 <= hi && v@.subrange(
                r[i].0 as int,
                r[i].1 as int,
            ) == split_on(v@.subrange(lo as int, hi as int), sep)[i],
{
    let ghost s = v@.subrange(lo as int, hi as int);
    let mut r: Vec<(usize, usize)> = Vec::new();
    let ghost mut done: Seq<Seq<char>> = seq![];
    let mut start: usize = lo;
    let mut q: usize = lo;
    while q < hi
        invariant
            lo <= start <= q <= hi <= v.len(),
            s == v@.subrange(lo as int, hi as int),
            done.len() == r.len(),
            forall|i: int|
                0 <= i < r.len() ==> lo <= (#[trigger] r[i]).0 <= r[i].1 <= hi && v@.subrange(
                    r[i].0 as int,
                    r[i].1 as int,
                ) == done[i],
            done + split_rec(s, sep, start - lo, q - lo) == split_on(s, sep),
        decreases hi - q,
    {
        if v[q] == sep {
            assert(s[q - lo] == sep);
            assert(s.subrange(start - lo, q - lo) =~= v@.subrange(start as int, q as int));
            let ghost piece = v@.subrange(start as int, q as int);
            assert(split_rec(s, sep, start - lo, q - lo) == seq![piece] + split_rec(
                s,
                sep,
                q + 1 - lo,
                q + 1 - lo,
            ));
            r.push((start, q));
            proof {
                assert(done.push(piece) + split_rec(s, sep, q + 1 - lo, q + 1 - lo) =~= done + (
                seq![piece] + split_rec(s, sep, q + 1 - lo, q + 1 - lo)));
                done = done.push(piece);
            }
            start = q + 1;
        } else {
            assert(s[q - lo] != sep);
        }
        q = q + 1;
    }
    assert(s.subrange(start - lo, s.len() as int) =~= v@.subrange(start as int, hi as int));
    let ghost last = v@.subrange(start as int, hi as int);
    r.push((start, hi));
    proof {
        assert(done.push(last) =~= done + seq![last]);
        done = done.push(last);
    }
    r
}

/// The bounds of `v[lo..hi]` once the characters of `cls` are cut off both ends.
pub fn trim_range(v: &Vec<char>, lo: usize, hi: usize, cls: CharClass) -> (r: (usize, usize))
    requires
        lo <= hi <= v.len(),
    ensures
        lo <= r.0 <= r.1 <= hi,
        v@.subrange(r.0 as int, r.1 as int) == trim_by(v@.subrange(lo as int, hi as int), cls),
{
    let ghost s = v@.subrange(lo as int, hi as int);
    let mut a: usize = lo;
    while a < hi && char_in_class(v[a], cls)
        invariant
            lo <= a <= hi <= v.len(),
            trim_start_by(s, cls) == trim_start_by(v@.subrange(a as int, hi as int), cls),
        decreases hi - a,
    {
        assert(v@.subrange(a as int, hi as int).drop_first() =~= v@.subrange(
            a + 1,
            hi as int,
        ));
        a = a + 1;
    }
    let ghost t = v@.subrange(a as int, hi as int);
    assert(trim_start_by(t, cls) == t);
    let mut b: usize = hi;
    while b > a && char_in_class(v[b - 1], cls)
        invariant
            lo <= a <= b <= hi <= v.len(),
            trim_end_by(t, cls) == trim_end_by(v@.subrange(a as int, b as int), cls),
        decreases b - a,
    {
        assert(v@.subrange(a as int, b as int).drop_last() =~= v@.subrange(
            a as int,
            b - 1,
        ));
        b = b - 1;
    }
    assert(trim_end_by(v@.subrange(a as int, b as int), cls) == v@.subrange(a as int, b as int));
    (a, b)
}

/// What `str::trim` gives back.
pub fn trim_str(s: &str) -> (r: String)
    ensures
        r@ == trim(s@),
{
    let v = to_chars(s);
    let (a, b) = trim_range(&v, 0, v.len(), CharClass::Space);
    assert(v@.subrange(0, v.len() as int) =~= v@);
    string_of_range(&v, a, b)
}

/// Whether `v[lo..hi]` holds exactly the characters of `lit`.
pub fn range_eq(v: &Vec<char>, lo: usize, hi: usize, lit: &Vec<char>) -> (r: bool)
    requires
        lo <= hi <= v.len(),
    ensures
        r == (v@.subrange(lo as int, hi as int) == lit@),
{
    if hi - lo != lit.len() {
        return false;
    }
    let mut i: usize = 0;
    while i < lit.len()
        invariant
            lo <= hi <= v.len(),
            hi - lo == lit.len(),
            0 <= i <= lit.len(),
            forall|k: int| 0 <= k < i ==> v@[lo + k] == lit@[k],
        decreases lit.len() - i,
    {
        if v[lo + i] != lit[i] {
            return false;
        }
        i = i + 1;
    }
    assert(v@.subrange(lo as int, hi as int) =~= lit@);
    true
}

/// `str::join`: the parts with `sep` between each two of them.
pub fn join_strings(parts: &Vec<String>, sep: &str) -> (r: String)
    ensures
        r@ == join(parts.deep_view(), sep@),
{
    let mut r = String::new();
    let ghost views = parts.deep_view();
    let mut i: usize = 0;
    while i < parts.len()
        invariant
            0 <= i <= parts.len(),
            views == parts.deep_view(),
            views.len() == parts.len(),
            r@ == join(views.take(i as int), sep@),
        decreases parts.len() - i,
    {
        assert(views.take(i + 1).drop_last() =~= views.take(i as int));
        assert(views.take(i + 1).last() == parts[i as int]@);
        if i != 0 {
            r.append(sep);
        }
        r.append(parts[i].as_str());
        i = i + 1;
    }
    assert(views.take(parts.len() as int) =~= views);
    r
}

/// `parts.join(" ")`, the form in which tokens are handed to full-text search.
pub fn join_words(parts: &Vec<String>) -> (r: String)
    ensures
        r@ == join(parts.deep_view(), seq![' ']),
{
    let sp = String::from_str(" ");
    proof {
        reveal_strlit(" ");
    }
    let r = join_strings(parts, sp.as_str());
    assert(sp@ =~= seq![' ']);
    r
}

fn digit_of(d: usize) -> (c: char)
    requires
        d < 10,
    ensures
        c == digit_char(d as nat),
{
    if d == 0 {
        '0'
    } else if d == 1 {
        '1'
    } else if d == 2 {
        '2'
    } else if d == 3 {
        '3'
    } else if d == 4 {
        '4'
    } else if d == 5 {
        '5'
    } else if d == 6 {
        '6'
    } else if d == 7 {
        '7'
    } else if d == 8 {
        '8'
    } else {
        '9'
    }
}

/// `n` written in decimal, as `format!("{}", n)` writes it.
pub fn decimal_string(n: usize) -> (s: String)
    ensures
        s@ == decimal(n as nat),
{
    // digits collected from the lowest one up
    let mut rev: Vec<char> = Vec::new();
    let mut m: usize = n;
    while m >= 10
        invariant
            decimal(n as nat) == decimal(m as nat) + rev@.reverse(),
        decreases m,
    {
        let d: usize = m % 10;
        let ghost old_rev = rev@;
        rev.push(digit_of(d));
        assert(rev@.reverse() =~= seq![digit_char(d as nat)] + old_rev.reverse());
        assert(decimal(m as nat) == decimal((m / 10) as nat).push(digit_char(d as nat)));
        assert(decimal(m as nat) + old_rev.reverse() =~= decimal((m / 10) as nat) + rev@.reverse());
        m = m / 10;
    }
    let ghost old_rev = rev@;
    rev.push(digit_of(m));
    assert(rev@.reverse() =~= seq![digit_char(m as nat)] + old_rev.reverse());
    let mut out: Vec<char> = Vec::new();
    let mut i: usize = rev.len();
    while i > 0
        invariant
            0 <= i <= rev.len(),
            out@ =~= rev@.reverse().take((rev.len() - i) as int),
        decreases i,
    {
        i = i - 1;
        out.push(rev[i]);
    }
    assert(rev@.reverse().take(rev.len() as int) =~= rev@.reverse());
    string_from_chars(out.as_slice())
}

/// Whether `a` comes strictly before `b` in the order of `String`.
pub fn str_lt(a: &str, b: &str) -> (r: bool)
    ensures
        r == lex_lt(a@, b@),
{
    let x = to_chars(a);
    let y = to_chars(b);
    let mut i: usize = 0;
    assert(x@.skip(0) =~= x@);
    assert(y@.skip(0) =~= y@);
    while i < x.len() && i < y.len() && x[i] == y[i]
        invariant
            0 <= i <= x.len(),
            i <= y.len(),
            lex_lt(x@, y@) == lex_lt(x@.skip(i as int), y@.skip(i as int)),
        decreases x.len() - i,
    {
        assert(x@.skip(i as int).drop_first() =~= x@.skip(i + 1));
        assert(y@.skip(i as int).drop_first() =~= y@.skip(i + 1));
        i = i + 1;
    }
    if i == x.len() {
        i < y.len()
    } else if i == y.len() {
        false
    } else {
        x[i] < y[i]
    }
}

} // verus!
