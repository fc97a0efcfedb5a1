//! The TOML-style front matter at the head of a post:
//!
//! ```text
//! +++
//! title = "..."
//! menus = ['a', 'b']
//! +++
//! body
//! ```
//!
//! The front matter lies between an opening `+++` line at the very start of
//! the file and the first `+++` line after it. Each of its lines of the form
//! `key = value` sets `key`; a value in square brackets is a list, kept for
//! the keys `menus` and `genres`, any other value is a string stripped of its
//! quotation marks.
use vstd::prelude::*;
use crate::text::{
    CharClass, find_from, find_in, in_class, is_quote, is_space, join, lacks, lemma_join_comma_space, lemma_join_lacks,
    lemma_split_join, lemma_split_single, lemma_trim_ends, lemma_trim_leading, lemma_trim_trailing,
    lemma_trim_untouched, range_eq, spaced, split_on, split_ranges, strip_quotes, string_of_range,
    to_chars, trim, trim_by, trim_end_by, trim_range,
};

verus! {

/// The metadata of a post: a map from keys to string values.
pub struct Metadata {
    entries: Vec<(String, String)>,
}

/// The map that a list of settings describes: a later setting of a key
/// overrides an earlier one.
pub open spec fn entries_map(entries: Seq<(String, String)>) -> Map<Seq<char>, Seq<char>>
    decreases entries.len(),
{
    if entries.len() == 0 {
        Map::empty()
    } else {
        entries_map(entries.drop_last()).insert(entries.last().0@, entries.last().1@)
    }
}

impl View for Metadata {
    type V = Map<Seq<char>, Seq<char>>;

    closed spec fn view(&self) -> Map<Seq<char>, Seq<char>> {
        entries_map(self.entries@)
    }
}

impl Metadata {
    /// No metadata at all.
    pub fn new() -> (m: Metadata)
        ensures
            m@ == Map::<Seq<char>, Seq<char>>::empty(),
    {
        Metadata { entries: Vec::new() }
    }

    /// Sets `key` to `value`.
    pub fn insert(&mut self, key: String, value: String)
        ensures
            final(self)@ == old(self)@.insert(key@, value@),
    {
        let ghost before = self.entries@;
        self.entries.push((key, value));
        assert(self.entries@.drop_last() =~= before);
    }

    /// The value of `key`, if it is set.
    pub fn get(&self, key: &str) -> (r: Option<&String>)
        ensures
            match r {
                Some(v) => self@.contains_key(key@) && self@[key@] == v@,
                None => !self@.contains_key(key@),
            },
    {
        let k = String::from_str(key);
        let ghost s = self.entries@;
        let mut i: usize = self.entries.len();
        assert(s.take(i as int) =~= s);
        while i > 0
            invariant
                0 <= i <= s.len(),
                s == self.entries@,
                k@ == key@,
                entries_map(s).contains_key(key@) == entries_map(s.take(i as int)).contains_key(
                    key@,
                ),
                entries_map(s).contains_key(key@) ==> entries_map(s)[key@] == entries_map(
                    s.take(i as int),
                )[key@],
            decreases i,
        {
            assert(s.take(i as int).drop_last() =~= s.take(i - 1));
            assert(s.take(i as int).last() == s[i - 1]);
            if self.entries[i - 1].0 == k {
                return Some(&self.entries[i - 1].1);
            }
            i = i - 1;
        }
        None
    }
}

/// Reading a key back gives the value last set for it; setting one key
/// leaves the others as they were.
pub proof fn lemma_read_after_insert(
    m: Map<Seq<char>, Seq<char>>,
    key: Seq<char>,
    value: Seq<char>,
    other: Seq<char>,
)
    requires
        other != key,
    ensures
        m.insert(key, value).contains_key(key),
        m.insert(key, value)[key] == value,
        m.insert(key, value).contains_key(other) == m.contains_key(other),
        m.contains_key(other) ==> m.insert(key, value)[other] == m[other],
{
}

/// Whether `s` holds the closing fence `\n+++\n` at index `i`.
pub open spec fn fence_at(s: Seq<char>, i: int) -> bool {
    &&& 0 <= i
    &&& i + 5 <= s.len()
    &&& s[i] == '\n'
    &&& s[i + 1] == '+'
    &&& s[i + 2] == '+'
    &&& s[i + 3] == '+'
    &&& s[i + 4] == '\n'
}

/// The first closing fence at or after `i`.
pub open spec fn find_fence(s: Seq<char>, i: int) -> Option<int>
    decreases s.len() - i,
{
    if i + 5 > s.len() {
        None
    } else if fence_at(s, i) {
        Some(i)
    } else {
        find_fence(s, i + 1)
    }
}

/// Whether `s` opens with the `+++` line.
pub open spec fn opens_front_matter(s: Seq<char>) -> bool {
    s.len() >= 4 && s[0] == '+' && s[1] == '+' && s[2] == '+' && s[3] == '\n'
}

/// The front matter and the rest of the text, when the text has front
/// matter: it opens with `+++\n`, and the front matter runs up to the first
/// `\n+++\n` after that.
pub open spec fn split_front_matter(s: Seq<char>) -> Option<(Seq<char>, Seq<char>)> {
    if opens_front_matter(s) {
        match find_fence(s, 4) {
            Some(i) => Some((s.subrange(4, i), s.subrange(i + 5, s.len() as int))),
            None => None,
        }
    } else {
        None
    }
}

/// Whether a value is a list: `[` ... `]`.
pub open spec fn is_list_value(value: Seq<char>) -> bool {
    value.len() > 0 && value[0] == '[' && value.last() == ']'
}

/// The items of the comma-separated pieces of a list: each trimmed and
/// stripped of quotation marks, the empty ones left out.
pub open spec fn list_items_of(pieces: Seq<Seq<char>>) -> Seq<Seq<char>>
    decreases pieces.len(),
{
    if pieces.len() == 0 {
        seq![]
    } else {
        let item = strip_quotes(trim(pieces[0]));
        (if item.len() > 0 {
            seq![item]
        } else {
            seq![]
        }) + list_items_of(pieces.drop_first())
    }
}

/// The items of a list value `[a, 'b', "c"]`.
pub open spec fn list_items(value: Seq<char>) -> Seq<Seq<char>> {
    list_items_of(split_on(value.subrange(1, value.len() - 1), ','))
}

pub open spec fn menus_key() -> Seq<char> {
    seq!['m', 'e', 'n', 'u', 's']
}

pub open spec fn genres_key() -> Seq<char> {
    seq!['g', 'e', 'n', 'r', 'e', 's']
}

/// What one line of front matter does to the metadata, menus and genres
/// read so far.
pub open spec fn apply_line(
    st: (Map<Seq<char>, Seq<char>>, Seq<Seq<char>>, Seq<Seq<char>>),
    line: Seq<char>,
) -> (Map<Seq<char>, Seq<char>>, Seq<Seq<char>>, Seq<Seq<char>>) {
    match find_from(line, '=', 0) {
        None => st,
        Some(e) => {
            let key = trim(line.subrange(0, e));
            let value = trim(line.subrange(e + 1, line.len() as int));
            if is_list_value(value) {
                if key == menus_key() {
                    (st.0, list_items(value), st.2)
                } else if key == genres_key() {
                    (st.0, st.1, list_items(value))
                } else {
                    st
                }
            } else {
                (st.0.insert(key, strip_quotes(value)), st.1, st.2)
            }
        },
    }
}

/// The metadata, menus and genres that the lines set, one after the other.
pub open spec fn apply_lines(lines: Seq<Seq<char>>) -> (
    Map<Seq<char>, Seq<char>>,
    Seq<Seq<char>>,
    Seq<Seq<char>>,
)
    decreases lines.len(),
{
    if lines.len() == 0 {
        (Map::empty(), seq![], seq![])
    } else {
        apply_line(apply_lines(lines.drop_last()), lines.last())
    }
}

/// The metadata, the menus, the genres and the body of a post's text. Text
/// without front matter is all body, with nothing set; otherwise the body is
/// what follows the closing fence, trimmed.
pub open spec fn front_matter_of(content: Seq<char>) -> (
    Map<Seq<char>, Seq<char>>,
    Seq<Seq<char>>,
    Seq<Seq<char>>,
    Seq<char>,
) {
    match split_front_matter(content) {
        None => (Map::empty(), seq![], seq![], content),
        Some((front, body)) => {
            let st = apply_lines(split_on(front, '\n'));
            (st.0, st.1, st.2, trim(body))
        },
    }
}

/// Text that does not open with front matter is all body: nothing is set
/// and the body is the text as it is.
pub proof fn lemma_no_front_matter(content: Seq<char>)
    requires
        split_front_matter(content) is None,
    ensures
        front_matter_of(content) == (
            Map::<Seq<char>, Seq<char>>::empty(),
            Seq::<Seq<char>>::empty(),
            Seq::<Seq<char>>::empty(),
            content,
        ),
{
}

/// The body after front matter has no white space at either end.
pub proof fn lemma_body_is_trimmed(content: Seq<char>)
    requires
        split_front_matter(content) is Some,
    ensures
        ({
            let body = front_matter_of(content).3;
            body.len() == 0 || (!is_space(body[0]) && !is_space(body.last()))
        }),
{
    let (front, body) = split_front_matter(content)->0;
    lemma_trim_ends(body, CharClass::Space);
}

/// The list items read from a value are never empty.
pub proof fn lemma_list_items_non_empty(pieces: Seq<Seq<char>>)
    ensures
        forall|i: int| 0 <= i < list_items_of(pieces).len() ==> (#[trigger] list_items_of(pieces)[i]).len() > 0,
    decreases pieces.len(),
{
    if pieces.len() > 0 {
        lemma_list_items_non_empty(pieces.drop_first());
        let item = strip_quotes(trim(pieces[0]));
        let rest = list_items_of(pieces.drop_first());
        let head: Seq<Seq<char>> = if item.len() > 0 {
            seq![item]
        } else {
            seq![]
        };
        assert forall|i: int| 0 <= i < list_items_of(pieces).len() implies (#[trigger] list_items_of(
            pieces,
        )[i]).len() > 0 by {
            if i >= head.len() {
                assert(list_items_of(pieces)[i] == rest[i - head.len()]);
            }
        }
    }
}

proof fn lemma_find_from_skip(s: Seq<char>, c: char, p: int, k: int)
    requires
        0 <= p <= k <= s.len(),
        forall|i: int| p <= i < k ==> s[i] != c,
    ensures
        find_from(s, c, p) == find_from(s, c, k),
    decreases k - p,
{
    if p < k {
        lemma_find_from_skip(s, c, p + 1, k);
    }
}

/// A key followed by ` = ` and a value: the line reads the key as it is and
/// the value trimmed.
proof fn lemma_key_line(key: Seq<char>, v: Seq<char>)
    requires
        key.len() > 0,
        lacks(key, '='),
        !is_space(key[0]),
        !is_space(key.last()),
    ensures
        ({
            let line = key + seq![' ', '=', ' '] + v;
            &&& find_from(line, '=', 0) == Some(key.len() + 1 as int)
            &&& trim(line.subrange(0, key.len() + 1 as int)) == key
            &&& trim(line.subrange(key.len() + 2 as int, line.len() as int)) == trim(v)
        }),
{
    let line = key + seq![' ', '=', ' '] + v;
    let n = key.len() as int;
    assert forall|i: int| 0 <= i < n + 1 implies line[i] != '=' by {
        if i < n {
            assert(line[i] == key[i]);
        } else {
            assert(line[i] == ' ');
        }
    }
    lemma_find_from_skip(line, '=', 0, n + 1);
    assert(line[n + 1] == '=');
    assert(line.subrange(0, n + 1) =~= key + seq![' ']);
    assert(is_space(' '));
    lemma_trim_trailing(key, ' ', CharClass::Space);
    assert(trim_end_by(key, CharClass::Space) == key);
    assert(line.subrange(n + 2, line.len() as int) =~= seq![' '] + v);
    lemma_trim_leading(' ', v, CharClass::Space);
}

/// What a line `key = v` sets, for the list keys.
pub open spec fn list_key_line(key: Seq<char>, v: Seq<char>) -> Seq<char> {
    key + seq![' ', '=', ' '] + v
}

/// A list value is read the same way whatever list key it is for: a line
/// `genres = v` sets the genres to what a line `menus = v` sets the menus
/// to, and each line sets nothing else.
pub proof fn lemma_list_keys_agree(
    st: (Map<Seq<char>, Seq<char>>, Seq<Seq<char>>, Seq<Seq<char>>),
    v: Seq<char>,
)
    requires
        trim(v).len() > 0,
        trim(v)[0] == '[',
        trim(v).last() == ']',
    ensures
        apply_line(st, list_key_line(menus_key(), v)).0 == st.0,
        apply_line(st, list_key_line(menus_key(), v)).2 == st.2,
        apply_line(st, list_key_line(genres_key(), v)) == (
            st.0,
            st.1,
            apply_line(st, list_key_line(menus_key(), v)).1,
        ),
{
    assert(lacks(menus_key(), '='));
    assert(lacks(genres_key(), '='));
    lemma_key_line(menus_key(), v);
    lemma_key_line(genres_key(), v);
    assert(menus_key() != genres_key()) by {
        assert(menus_key()[0] != genres_key()[0]);
    }
}

/// Each item between single quotes: `'a'`.
pub open spec fn quoted(items: Seq<Seq<char>>) -> Seq<Seq<char>> {
    Seq::new(items.len(), |i: int| seq!['\''] + items[i] + seq!['\''])
}

/// The line setting a list key to the items, each between single quotes,
/// separated by a comma and a space: `key = ['a', 'b']`.
pub open spec fn list_line(key: Seq<char>, items: Seq<Seq<char>>) -> Seq<char> {
    list_key_line(key, seq!['['] + join(quoted(items), seq![',', ' ']) + seq![']'])
}

/// An item that can stand between single quotes in such a list: not empty,
/// without a comma or a line break, not starting or ending with a quotation
/// mark.
pub open spec fn writable_item(x: Seq<char>) -> bool {
    &&& x.len() > 0
    &&& lacks(x, ',')
    &&& lacks(x, '\n')
    &&& !is_quote(x[0])
    &&& !is_quote(x.last())
}

/// A post whose front matter is the one line, followed by the body.
pub open spec fn one_line_post(line: Seq<char>, body: Seq<char>) -> Seq<char> {
    seq!['+', '+', '+', '\n'] + line + seq!['\n', '+', '+', '+', '\n'] + body
}

proof fn lemma_find_fence_skip(s: Seq<char>, i: int, k: int)
    requires
        0 <= i <= k,
        k + 5 <= s.len(),
        forall|j: int| i <= j < k ==> s[j] != '\n',
    ensures
        find_fence(s, i) == find_fence(s, k),
    decreases k - i,
{
    if i < k {
        lemma_find_fence_skip(s, i + 1, k);
    }
}

/// A post with a one-line front matter: the line is its front matter.
proof fn lemma_one_line_post(line: Seq<char>, body: Seq<char>)
    requires
        lacks(line, '\n'),
    ensures
        front_matter_of(one_line_post(line, body)) == ({
            let st = apply_line(
                (Map::<Seq<char>, Seq<char>>::empty(), Seq::<Seq<char>>::empty(), Seq::<Seq<char>>::empty()),
                line,
            );
            (st.0, st.1, st.2, trim(body))
        }),
{
    let s = one_line_post(line, body);
    let n = line.len() as int;
    assert forall|j: int| 4 <= j < 4 + n implies s[j] != '\n' by {
        assert(s[j] == line[j - 4]);
    }
    lemma_find_fence_skip(s, 4, 4 + n);
    assert(s[4 + n] == '\n' && s[5 + n] == '+' && s[6 + n] == '+' && s[7 + n] == '+' && s[8 + n]
        == '\n');
    assert(fence_at(s, 4 + n));
    assert(find_fence(s, 4 + n) == Some(4 + n));
    assert(opens_front_matter(s));
    assert(s.subrange(4, 4 + n) =~= line);
    assert(s.subrange(4 + n + 5, s.len() as int) =~= body);
    assert(split_front_matter(s) == Some((line, body)));
    lemma_split_single(line, '\n');
    assert(seq![line].drop_last() =~= Seq::<Seq<char>>::empty());
    assert(seq![line].last() == line);
    assert(apply_lines(seq![line]) == apply_line(apply_lines(Seq::<Seq<char>>::empty()), line));
}

/// Items each of whose pieces trims and unquotes to it are read as they are.
proof fn lemma_items_read(pieces: Seq<Seq<char>>, items: Seq<Seq<char>>)
    requires
        pieces.len() == items.len(),
        forall|i: int|
            0 <= i < items.len() ==> strip_quotes(trim(#[trigger] pieces[i])) == items[i]
                && items[i].len() > 0,
    ensures
        list_items_of(pieces) == items,
    decreases pieces.len(),
{
    if pieces.len() > 0 {
        assert(strip_quotes(trim(pieces[0])) == items[0] && items[0].len() > 0);
        lemma_items_read(pieces.drop_first(), items.drop_first());
        assert(seq![items[0]] + items.drop_first() =~= items);
    }
}

/// A quoted item, with a space in front or not, reads back as the item.
proof fn lemma_quoted_item(x: Seq<char>, spaced_in_front: bool)
    requires
        writable_item(x),
    ensures
        strip_quotes(trim(
            if spaced_in_front {
                seq![' '] + (seq!['\''] + x + seq!['\''])
            } else {
                seq!['\''] + x + seq!['\'']
            },
        )) == x,
{
    let q = seq!['\''] + x + seq!['\''];
    assert(is_space(' '));
    assert(!is_space('\''));
    assert(is_quote('\''));
    if spaced_in_front {
        lemma_trim_leading(' ', q, CharClass::Space);
    }
    assert(q[0] == '\'' && q.last() == '\'');
    lemma_trim_untouched(q, CharClass::Space);
    assert(q =~= seq!['\''] + (x + seq!['\'']));
    lemma_trim_leading('\'', x + seq!['\''], CharClass::Quote);
    lemma_trim_trailing(x, '\'', CharClass::Quote);
    assert(trim_end_by(x, CharClass::Quote) == x);
}

/// The bracketed list of the items, quoted and separated by a comma and a
/// space, has no line break and holds exactly the items.
proof fn lemma_list_value(items: Seq<Seq<char>>)
    requires
        forall|i: int| 0 <= i < items.len() ==> writable_item(#[trigger] items[i]),
    ensures
        ({
            let v = seq!['['] + join(quoted(items), seq![',', ' ']) + seq![']'];
            &&& trim(v) == v
            &&& v.len() > 0 && v[0] == '[' && v.last() == ']'
            &&& lacks(v, '\n')
            &&& list_items(v) == items
        }),
{
    let q = quoted(items);
    let j = join(q, seq![',', ' ']);
    let v = seq!['['] + j + seq![']'];
    assert(!is_space('[') && !is_space(']'));
    assert(v[0] == '[' && v.last() == ']');
    lemma_trim_untouched(v, CharClass::Space);
    assert(v.subrange(1, v.len() - 1) =~= j);
    assert forall|i: int| 0 <= i < q.len() implies lacks(#[trigger] q[i], '\n') by {
        let x = items[i];
        assert(writable_item(x));
        assert forall|k: int| 0 <= k < q[i].len() implies q[i][k] != '\n' by {
            if 0 < k < x.len() + 1 {
                assert(q[i][k] == x[k - 1]);
            }
        }
    }
    lemma_join_lacks(q, seq![',', ' '], '\n');
    assert forall|k: int| 0 <= k < v.len() implies v[k] != '\n' by {
        if 0 < k < v.len() - 1 {
            assert(v[k] == j[k - 1]);
        }
    }
    let pieces = spaced(q);
    lemma_join_comma_space(q);
    if items.len() == 0 {
        assert(j =~= Seq::<char>::empty());
        lemma_split_single(j, ',');
        lemma_trim_untouched(j, CharClass::Space);
        lemma_trim_untouched(j, CharClass::Quote);
        assert(strip_quotes(trim(j)).len() == 0);
        assert(seq![j].drop_first() =~= Seq::<Seq<char>>::empty());
        assert(seq![j][0] == j);
        assert(list_items_of(seq![j].drop_first()) == Seq::<Seq<char>>::empty());
        assert(items =~= Seq::<Seq<char>>::empty());
        assert(list_items_of(seq![j]) =~= items);
    } else {
        assert forall|i: int| 0 <= i < pieces.len() implies lacks(#[trigger] pieces[i], ',') by {
            let x = items[i];
            assert(writable_item(x));
            assert forall|k: int| 0 <= k < pieces[i].len() implies pieces[i][k] != ',' by {
                if i == 0 {
                    if 0 < k < x.len() + 1 {
                        assert(pieces[i][k] == x[k - 1]);
                    }
                } else {
                    if 1 < k < x.len() + 2 {
                        assert(pieces[i][k] == x[k - 2]);
                    }
                }
            }
        }
        lemma_split_join(pieces, ',');
        assert forall|i: int| 0 <= i < items.len() implies strip_quotes(trim(#[trigger] pieces[i]))
            == items[i] && items[i].len() > 0 by {
            lemma_quoted_item(items[i], i != 0);
        }
        lemma_items_read(pieces, items);
    }
}

/// Whatever lines come before it, a list line sets its key to exactly its
/// items and leaves the metadata and the other list as they were.
pub proof fn lemma_list_line_sets(lines: Seq<Seq<char>>, items: Seq<Seq<char>>)
    requires
        forall|i: int| 0 <= i < items.len() ==> writable_item(#[trigger] items[i]),
    ensures
        ({
            let before = apply_lines(lines);
            let m = apply_lines(lines.push(list_line(menus_key(), items)));
            let g = apply_lines(lines.push(list_line(genres_key(), items)));
            &&& m == (before.0, items, before.2)
            &&& g == (before.0, before.1, items)
        }),
{
    let v = seq!['['] + join(quoted(items), seq![',', ' ']) + seq![']'];
    lemma_list_value(items);
    assert(lacks(menus_key(), '='));
    assert(lacks(genres_key(), '='));
    lemma_key_line(menus_key(), v);
    lemma_key_line(genres_key(), v);
    assert(menus_key() != genres_key()) by {
        assert(menus_key()[0] != genres_key()[0]);
    }
    assert(lines.push(list_line(menus_key(), items)).drop_last() =~= lines);
    assert(lines.push(list_line(genres_key(), items)).drop_last() =~= lines);
}

/// A list written with its items between single quotes, separated by a
/// comma and a space, is read as exactly those items, in order, whether it
/// is for `menus` or for `genres`: a post whose front matter is the line
/// `menus = ['a', 'b']` has the menus `a`, `b` and no genres, and one whose
/// front matter is `genres = ['a', 'b']` has the genres `a`, `b` and no
/// menus; neither sets any metadata, and the body is the rest, trimmed.
pub proof fn lemma_list_post(items: Seq<Seq<char>>, body: Seq<char>)
    requires
        forall|i: int| 0 <= i < items.len() ==> writable_item(#[trigger] items[i]),
    ensures
        front_matter_of(one_line_post(list_line(menus_key(), items), body)) == (
            Map::<Seq<char>, Seq<char>>::empty(),
            items,
            Seq::<Seq<char>>::empty(),
            trim(body),
        ),
        front_matter_of(one_line_post(list_line(genres_key(), items), body)) == (
            Map::<Seq<char>, Seq<char>>::empty(),
            Seq::<Seq<char>>::empty(),
            items,
            trim(body),
        ),
{
    let v = seq!['['] + join(quoted(items), seq![',', ' ']) + seq![']'];
    lemma_list_value(items);
    assert(lacks(menus_key(), '='));
    assert(lacks(genres_key(), '='));
    lemma_key_line(menus_key(), v);
    lemma_key_line(genres_key(), v);
    assert(menus_key() != genres_key()) by {
        assert(menus_key()[0] != genres_key()[0]);
    }
    let lm = list_line(menus_key(), items);
    let lg = list_line(genres_key(), items);
    assert(lacks(lm, '\n')) by {
        assert forall|k: int| 0 <= k < lm.len() implies lm[k] != '\n' by {
            if k >= 8 {
                assert(lm[k] == v[k - 8]);
            }
        }
    }
    assert(lacks(lg, '\n')) by {
        assert forall|k: int| 0 <= k < lg.len() implies lg[k] != '\n' by {
            if k >= 9 {
                assert(lg[k] == v[k - 9]);
            }
        }
    }
    lemma_one_line_post(lm, body);
    lemma_one_line_post(lg, body);
}

pub proof fn lemma_find_fence_bounds(s: Seq<char>, i: int)
    requires
        0 <= i,
    ensures
        match find_fence(s, i) {
            Some(k) => i <= k && fence_at(s, k),
            None => true,
        },
    decreases s.len() - i,
{
    if i + 5 <= s.len() && !fence_at(s, i) {
        lemma_find_fence_bounds(s, i + 1);
    }
}

/// The items of the list whose inside is `v[lo..hi]`.
fn list_items_in(v: &Vec<char>, lo: usize, hi: usize) -> (r: Vec<String>)
    requires
        lo <= hi <= v.len(),
    ensures
        r.deep_view() == list_items_of(split_on(v@.subrange(lo as int, hi as int), ',')),
{
    let pieces = split_ranges(v, lo, hi, ',');
    let ghost ps = split_on(v@.subrange(lo as int, hi as int), ',');
    let mut out: Vec<String> = Vec::new();
    let mut j: usize = 0;
    assert(ps.skip(0) =~= ps);
    while j < pieces.len()
        invariant
            lo <= hi <= v.len(),
            0 <= j <= pieces.len(),
            pieces.len() == ps.len(),
            ps == split_on(v@.subrange(lo as int, hi as int), ','),
            forall|i: int|
                0 <= i < pieces.len() ==> lo <= (#[trigger] pieces[i]).0 <= pieces[i].1 <= hi
                    && v@.subrange(pieces[i].0 as int, pieces[i].1 as int) == ps[i],
            out.deep_view() + list_items_of(ps.skip(j as int)) == list_items_of(ps),
        decreases pieces.len() - j,
    {
        let (a, b) = pieces[j];
        let (ta, tb) = trim_range(v, a, b, CharClass::Space);
        let (qa, qb) = trim_range(v, ta, tb, CharClass::Quote);
        let ghost item = v@.subrange(qa as int, qb as int);
        assert(item == strip_quotes(trim(ps[j as int])));
        assert(ps.skip(j as int).drop_first() =~= ps.skip(j + 1));
        assert(ps.skip(j as int)[0] == ps[j as int]);
        let ghost before = out.deep_view();
        if qa < qb {
            out.push(string_of_range(v, qa, qb));
            assert(out.deep_view() =~= before + seq![item]);
        }
        assert(list_items_of(ps.skip(j as int)) == (if item.len() > 0 {
            seq![item]
        } else {
            seq![]
        }) + list_items_of(ps.skip(j + 1)));
        if qa < qb {
            assert(before + list_items_of(ps.skip(j as int)) =~= out.deep_view()
                + list_items_of(ps.skip(j + 1)));
        } else {
            assert(list_items_of(ps.skip(j as int)) =~= list_items_of(ps.skip(j + 1)));
        }
        j = j + 1;
    }
    assert(ps.skip(pieces.len() as int) =~= Seq::<Seq<char>>::empty());
    assert(out.deep_view() =~= list_items_of(ps));
    out
}

/// Applies the front-matter line `v[a..b]`.
fn apply_line_in(
    v: &Vec<char>,
    a: usize,
    b: usize,
    meta: &mut Metadata,
    menus: &mut Vec<String>,
    genres: &mut Vec<String>,
)
    requires
        a <= b <= v.len(),
    ensures
        (final(meta)@, final(menus).deep_view(), final(genres).deep_view()) == apply_line(
            (old(meta)@, old(menus).deep_view(), old(genres).deep_view()),
            v@.subrange(a as int, b as int),
        ),
{
    let ghost line = v@.subrange(a as int, b as int);
    match find_in(v, a, a, b, '=') {
        None => {},
        Some(e) => {
            assert(line.subrange(0, e - a) =~= v@.subrange(a as int, e as int));
            assert(line.subrange(e - a + 1, line.len() as int) =~= v@.subrange(e + 1, b as int));
            let (ka, kb) = trim_range(v, a, e, CharClass::Space);
            let (va, vb) = trim_range(v, e + 1, b, CharClass::Space);
            let ghost value = v@.subrange(va as int, vb as int);
            if va < vb && v[va] == '[' && v[vb - 1] == ']' {
                assert(value[0] == v@[va as int]);
                assert(value.last() == v@[vb - 1]);
                assert(vb - va >= 2);
                assert(value.subrange(1, value.len() - 1) =~= v@.subrange(va + 1, vb - 1));
                let menus_lit = vec!['m', 'e', 'n', 'u', 's'];
                let genres_lit = vec!['g', 'e', 'n', 'r', 'e', 's'];
                assert(menus_lit@ =~= menus_key());
                assert(genres_lit@ =~= genres_key());
                if range_eq(v, ka, kb, &menus_lit) {
                    *menus = list_items_in(v, va + 1, vb - 1);
                } else if range_eq(v, ka, kb, &genres_lit) {
                    *genres = list_items_in(v, va + 1, vb - 1);
                }
            } else {
                assert(!is_list_value(value)) by {
                    if value.len() > 0 {
                        assert(value[0] == v@[va as int]);
                        assert(value.last() == v@[vb - 1]);
                    }
                }
                let (qa, qb) = trim_range(v, va, vb, CharClass::Quote);
                meta.insert(string_of_range(v, ka, kb), string_of_range(v, qa, qb));
            }
        },
    }
}

/// Splits a post's text into its front matter and body and reads the front
/// matter: the metadata, the menus, the genres and the trimmed body. Text
/// that does not open with a front matter block is all body.
pub fn parse_frontmatter(content: &str) -> (r: (Metadata, Vec<String>, Vec<String>, String))
    ensures
        ({
            let f = front_matter_of(content@);
            &&& r.0@ == f.0
            &&& r.1.deep_view() == f.1
            &&& r.2.deep_view() == f.2
            &&& r.3@ == f.3
        }),
{
    let v = to_chars(content);
    let n: usize = v.len();
    if !(n >= 4 && v[0] == '+' && v[1] == '+' && v[2] == '+' && v[3] == '\n') {
        return (Metadata::new(), Vec::new(), Vec::new(), String::from_str(content));
    }
    let mut i: usize = 4;
    while n - i >= 5 && !(v[i] == '\n' && v[i + 1] == '+' && v[i + 2] == '+' && v[i + 3] == '+'
        && v[i + 4] == '\n')
        invariant
            4 <= i <= n,
            n == v.len(),
            v@ == content@,
            opens_front_matter(v@),
            find_fence(v@, 4) == find_fence(v@, i as int),
        decreases n - i,
    {
        i = i + 1;
    }
    if n - i < 5 {
        return (Metadata::new(), Vec::new(), Vec::new(), String::from_str(content));
    }
    assert(fence_at(v@, i as int));
    assert(split_front_matter(v@) == Some(
        (v@.subrange(4, i as int), v@.subrange(i + 5, n as int)),
    ));
    let (ba, bb) = trim_range(&v, i + 5, n, CharClass::Space);
    let body = string_of_range(&v, ba, bb);
    let lines = split_ranges(&v, 4, i, '\n');
    let ghost ls = split_on(v@.subrange(4, i as int), '\n');
    let mut meta = Metadata::new();
    let mut menus: Vec<String> = Vec::new();
    let mut genres: Vec<String> = Vec::new();
    let mut li: usize = 0;
    assert(menus.deep_view() =~= Seq::<Seq<char>>::empty());
    assert(genres.deep_view() =~= Seq::<Seq<char>>::empty());
    assert(ls.take(0) =~= Seq::<Seq<char>>::empty());
    while li < lines.len()
        invariant
            0 <= li <= lines.len(),
            lines.len() == ls.len(),
            4 <= i <= n == v.len(),
            forall|k: int|
                0 <= k < lines.len() ==> 4 <= (#[trigger] lines[k]).0 <= lines[k].1 <= i && v@.subrange(
                    lines[k].0 as int,
                    lines[k].1 as int,
                ) == ls[k],
            (meta@, menus.deep_view(), genres.deep_view()) == apply_lines(ls.take(li as int)),
        decreases lines.len() - li,
    {
        let (a, b) = lines[li];
        assert(ls.take(li + 1).drop_last() =~= ls.take(li as int));
        assert(ls.take(li + 1).last() == ls[li as int]);
        apply_line_in(&v, a, b, &mut meta, &mut menus, &mut genres);
        li = li + 1;
    }
    assert(ls.take(lines.len() as int) =~= ls);
    (meta, menus, genres, body)
}

} // verus!
