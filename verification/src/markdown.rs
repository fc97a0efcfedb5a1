//! The Markdown that a post's body is written in, as far as the search index
//! cares: images `![alt](url)`, links `[text](url)` and runs of blank lines.
//!
//! An image starts with `![`; its alt text is the shortest run of characters
//! without a line break that is followed by `](`, a run of characters without
//! a line break, and `)`. A link starts with `[`; its text is a non-empty run
//! of characters other than `]`, followed by `](`, a non-empty run of
//! characters other than `)`, and `)`. Text is scanned from the left, and a
//! construct that is taken is skipped over as a whole.
use vstd::prelude::*;
use crate::text::{
    CharClass, find_from, find_in, is_space, lemma_find_from_bounds, lemma_non_empty_parts,
    lemma_trim_ends, lemma_trim_is_slice, non_empty, string_of_range, to_chars, trim, trim_range,
    trim_start_by,
};

verus! {

/// The first `)` at or after `p` on the same line.
pub open spec fn paren_close(s: Seq<char>, p: int) -> Option<int>
    decreases s.len() - p,
{
    if p >= s.len() {
        None
    } else if s[p] == ')' {
        Some(p)
    } else if s[p] == '\n' {
        None
    } else {
        paren_close(s, p + 1)
    }
}

/// Where the alt text of an image ends and where its closing `)` stands,
/// trying the ends of the alt text from `j` on.
pub open spec fn image_tail(s: Seq<char>, j: int) -> Option<(int, int)>
    decreases s.len() - j,
{
    if j + 1 >= s.len() {
        None
    } else if s[j] == '\n' {
        None
    } else if s[j] == ']' && s[j + 1] == '(' && paren_close(s, j + 2) is Some {
        Some((j, paren_close(s, j + 2)->0))
    } else {
        image_tail(s, j + 1)
    }
}

/// The image that starts at `i`: where its alt text ends and where its
/// closing `)` stands.
pub open spec fn image_at(s: Seq<char>, i: int) -> Option<(int, int)> {
    if 0 <= i && i + 1 < s.len() && s[i] == '!' && s[i + 1] == '[' {
        image_tail(s, i + 2)
    } else {
        None
    }
}

pub proof fn lemma_paren_close_bounds(s: Seq<char>, p: int)
    requires
        0 <= p,
    ensures
        paren_close(s, p) matches Some(k) ==> p <= k < s.len() && s[k] == ')',
    decreases s.len() - p,
{
    if p < s.len() && s[p] != ')' && s[p] != '\n' {
        lemma_paren_close_bounds(s, p + 1);
    }
}

pub proof fn lemma_image_tail_bounds(s: Seq<char>, j: int)
    requires
        0 <= j,
    ensures
        image_tail(s, j) matches Some((a, k)) ==> j <= a && a + 2 <= k < s.len(),
    decreases s.len() - j,
{
    if j + 1 < s.len() && s[j] != '\n' {
        if s[j] == ']' && s[j + 1] == '(' && paren_close(s, j + 2) is Some {
            lemma_paren_close_bounds(s, j + 2);
        } else {
            lemma_image_tail_bounds(s, j + 1);
        }
    }
}

pub proof fn lemma_image_at_bounds(s: Seq<char>, i: int)
    ensures
        image_at(s, i) matches Some((a, k)) ==> 0 <= i && i + 2 <= a && a + 2 <= k < s.len(),
{
    if 0 <= i && i + 1 < s.len() && s[i] == '!' && s[i + 1] == '[' {
        lemma_image_tail_bounds(s, i + 2);
    }
}

/// The alt texts of the images in `s` from `p` on.
pub open spec fn alt_texts_from(s: Seq<char>, p: int) -> Seq<Seq<char>>
    decreases s.len() - p,
{
    if p < 0 || p >= s.len() {
        seq![]
    } else {
        match image_at(s, p) {
            Some((a, k)) => {
                proof {
                    lemma_image_at_bounds(s, p);
                }
                seq![s.subrange(p + 2, a)] + alt_texts_from(s, k + 1)
            },
            None => alt_texts_from(s, p + 1),
        }
    }
}

/// `s` from `p` on with its images taken out.
pub open spec fn without_images_from(s: Seq<char>, p: int) -> Seq<char>
    decreases s.len() - p,
{
    if p < 0 || p >= s.len() {
        seq![]
    } else {
        match image_at(s, p) {
            Some((a, k)) => {
                proof {
                    lemma_image_at_bounds(s, p);
                }
                without_images_from(s, k + 1)
            },
            None => seq![s[p]] + without_images_from(s, p + 1),
        }
    }
}

/// The link that starts at `i`: where its text ends and where its closing
/// `)` stands.
pub open spec fn link_at(s: Seq<char>, i: int) -> Option<(int, int)> {
    if 0 <= i < s.len() && s[i] == '[' {
        match find_from(s, ']', i + 1) {
            Some(j) => if j > i + 1 && j + 1 < s.len() && s[j + 1] == '(' {
                match find_from(s, ')', j + 2) {
                    Some(k) => if k > j + 2 {
                        Some((j, k))
                    } else {
                        None
                    },
                    None => None,
                }
            } else {
                None
            },
            None => None,
        }
    } else {
        None
    }
}

pub proof fn lemma_link_at_bounds(s: Seq<char>, i: int)
    ensures
        link_at(s, i) matches Some((j, k)) ==> 0 <= i && i + 1 < j && j + 2 < k < s.len(),
{
    if 0 <= i < s.len() && s[i] == '[' {
        lemma_find_from_bounds(s, ']', i + 1);
        if let Some(j) = find_from(s, ']', i + 1) {
            lemma_find_from_bounds(s, ')', j + 2);
        }
    }
}

/// `s` from `p` on with each link replaced by its text.
pub open spec fn unlinked_from(s: Seq<char>, p: int) -> Seq<char>
    decreases s.len() - p,
{
    if p < 0 || p >= s.len() {
        seq![]
    } else {
        match link_at(s, p) {
            Some((j, k)) => {
                proof {
                    lemma_link_at_bounds(s, p);
                }
                s.subrange(p + 1, j) + unlinked_from(s, k + 1)
            },
            None => seq![s[p]] + unlinked_from(s, p + 1),
        }
    }
}

/// Whether the character at `p` is a line break right after another one.
pub open spec fn repeated_newline(s: Seq<char>, p: int) -> bool {
    0 < p < s.len() && s[p] == '\n' && s[p - 1] == '\n'
}

/// `s` from `p` on with each run of line breaks cut down to one.
pub open spec fn single_spaced_from(s: Seq<char>, p: int) -> Seq<char>
    decreases s.len() - p,
{
    if p < 0 || p >= s.len() {
        seq![]
    } else if repeated_newline(s, p) {
        single_spaced_from(s, p + 1)
    } else {
        seq![s[p]] + single_spaced_from(s, p + 1)
    }
}

/// The alt texts of a body's images, the empty ones left out.
pub open spec fn alt_texts_of(s: Seq<char>) -> Seq<Seq<char>> {
    non_empty(alt_texts_from(s, 0))
}

/// A body made ready for embedding: images removed, links replaced by their
/// text, runs of line breaks cut down to one, white space trimmed off both ends.
pub open spec fn cleaned(s: Seq<char>) -> Seq<char> {
    let t1 = without_images_from(s, 0);
    let t2 = unlinked_from(t1, 0);
    let t3 = single_spaced_from(t2, 0);
    trim(t3)
}

/// No line break in `t` is directly followed by another.
pub open spec fn no_blank_lines(t: Seq<char>) -> bool {
    forall|i: int| 0 <= i < t.len() - 1 ==> !(#[trigger] t[i] == '\n' && t[i + 1] == '\n')
}

proof fn lemma_single_spaced(s: Seq<char>, p: int)
    requires
        0 <= p,
    ensures
        no_blank_lines(single_spaced_from(s, p)),
        (0 < p <= s.len() && s[p - 1] == '\n' && single_spaced_from(s, p).len() > 0)
            ==> single_spaced_from(s, p)[0] != '\n',
    decreases s.len() - p,
{
    if p < s.len() {
        lemma_single_spaced(s, p + 1);
        let rest = single_spaced_from(s, p + 1);
        if !repeated_newline(s, p) {
            let out = seq![s[p]] + rest;
            assert forall|i: int| 0 <= i < out.len() - 1 implies !(#[trigger] out[i] == '\n'
                && out[i + 1] == '\n') by {
                if i > 0 {
                    assert(out[i] == rest[i - 1] && out[i + 1] == rest[i]);
                }
            }
        }
    }
}

/// A cleaned body holds no blank line: no line break follows another.
pub proof fn lemma_cleaned_has_no_blank_lines(s: Seq<char>)
    ensures
        no_blank_lines(cleaned(s)),
{
    let t3 = single_spaced_from(unlinked_from(without_images_from(s, 0), 0), 0);
    lemma_single_spaced(unlinked_from(without_images_from(s, 0), 0), 0);
    let (a, b) = lemma_trim_is_slice(t3, CharClass::Space);
    let c = cleaned(s);
    assert forall|i: int| 0 <= i < c.len() - 1 implies !(#[trigger] c[i] == '\n' && c[i + 1]
        == '\n') by {
        assert(c[i] == t3[a + i] && c[i + 1] == t3[a + i + 1]);
    }
}

/// A cleaned body has no white space at either end.
pub proof fn lemma_cleaned_is_trimmed(s: Seq<char>)
    ensures
        cleaned(s).len() == 0 || (!is_space(cleaned(s)[0]) && !is_space(cleaned(s).last())),
{
    let t3 = single_spaced_from(unlinked_from(without_images_from(s, 0), 0), 0);
    lemma_trim_ends(t3, CharClass::Space);
}

/// Alt texts are never empty.
pub proof fn lemma_alt_texts_are_non_empty(s: Seq<char>)
    ensures
        forall|i: int| 0 <= i < alt_texts_of(s).len() ==> (#[trigger] alt_texts_of(s)[i]).len() > 0,
{
    lemma_non_empty_parts(alt_texts_from(s, 0));
}

/// Whether `s` holds `](` starting at index `i`.
pub open spec fn opens_destination_at(s: Seq<char>, i: int) -> bool {
    0 <= i && i + 1 < s.len() && s[i] == ']' && s[i + 1] == '('
}

/// The text of one image: `![`, the alt text, `](`, the destination, `)`.
pub open spec fn image_text(alt: Seq<char>, dest: Seq<char>) -> Seq<char> {
    seq!['!', '['] + alt + seq![']', '('] + dest + seq![')']
}

proof fn lemma_paren_close_run(s: Seq<char>, p: int, k: int)
    requires
        0 <= p <= k < s.len(),
        s[k] == ')',
        forall|i: int| p <= i < k ==> s[i] != ')' && s[i] != '\n',
    ensures
        paren_close(s, p) == Some(k),
    decreases k - p,
{
    if p < k {
        lemma_paren_close_run(s, p + 1, k);
    }
}

proof fn lemma_image_tail_run(s: Seq<char>, j: int, a: int)
    requires
        0 <= j <= a,
        a + 1 < s.len(),
        forall|i: int| j <= i < a ==> s[i] != '\n' && !opens_destination_at(s, i),
    ensures
        image_tail(s, j) == image_tail(s, a),
    decreases a - j,
{
    if j < a {
        lemma_image_tail_run(s, j + 1, a);
    }
}

/// An image is told by the characters it may hold: for every alt text
/// without a line break and without `](`, and every destination without `)`
/// or a line break (spaces and anything else allowed), the text of the image
/// alone has the alt text as its one alt text (none when the alt text is
/// empty), and cleaning it leaves nothing.
pub proof fn lemma_single_image(alt: Seq<char>, dest: Seq<char>)
    requires
        forall|i: int| 0 <= i < alt.len() ==> alt[i] != '\n',
        forall|i: int| 0 <= i < alt.len() - 1 ==> !(#[trigger] alt[i] == ']' && alt[i + 1] == '('),
        forall|i: int| 0 <= i < dest.len() ==> dest[i] != ')' && dest[i] != '\n',
    ensures
        alt_texts_of(image_text(alt, dest)) == (if alt.len() > 0 {
            seq![alt]
        } else {
            Seq::<Seq<char>>::empty()
        }),
        cleaned(image_text(alt, dest)) == Seq::<char>::empty(),
{
    let s = image_text(alt, dest);
    let a: int = 2 + alt.len() as int;
    let k: int = a + 2 + dest.len() as int;
    lemma_image_at_start(alt, dest, Seq::<char>::empty());
    assert(s + Seq::<char>::empty() =~= s);
    assert(image_at(s, 0) == Some((a, k)));
    assert(s.subrange(2, a) =~= alt);
    assert(alt_texts_from(s, 0) == seq![alt] + alt_texts_from(s, k + 1));
    assert(alt_texts_from(s, 0) =~= seq![alt]);
    if alt.len() > 0 {
        assert(non_empty(seq![alt].drop_first()) == Seq::<Seq<char>>::empty());
        assert(non_empty(seq![alt]) =~= seq![alt]);
    } else {
        assert(non_empty(seq![alt].drop_first()) == Seq::<Seq<char>>::empty());
        assert(non_empty(seq![alt]) =~= Seq::<Seq<char>>::empty());
    }
    let t1 = without_images_from(s, 0);
    assert(t1 == without_images_from(s, k + 1));
    assert(t1 =~= Seq::<char>::empty());
    let t2 = unlinked_from(t1, 0);
    assert(t2 =~= Seq::<char>::empty());
    let t3 = single_spaced_from(t2, 0);
    assert(t3 =~= Seq::<char>::empty());
    assert(trim_start_by(t3, CharClass::Space) =~= Seq::<char>::empty());
    assert(trim(t3) =~= Seq::<char>::empty());
}

/// An image text at the start of a text is taken as a whole, whatever
/// follows it.
proof fn lemma_image_at_start(alt: Seq<char>, dest: Seq<char>, y: Seq<char>)
    requires
        forall|i: int| 0 <= i < alt.len() ==> alt[i] != '\n',
        forall|i: int| 0 <= i < alt.len() - 1 ==> !(#[trigger] alt[i] == ']' && alt[i + 1] == '('),
        forall|i: int| 0 <= i < dest.len() ==> dest[i] != ')' && dest[i] != '\n',
    ensures
        image_at(image_text(alt, dest) + y, 0) == Some(
            (2 + alt.len() as int, image_text(alt, dest).len() - 1),
        ),
{
    let img = image_text(alt, dest);
    let s = img + y;
    let a: int = 2 + alt.len() as int;
    let k: int = a + 2 + dest.len() as int;
    assert(img.len() == k + 1);
    assert forall|i: int| a + 2 <= i < k implies s[i] != ')' && s[i] != '\n' by {
        assert(s[i] == dest[i - a - 2]);
    }
    assert(s[k] == ')');
    lemma_paren_close_run(s, a + 2, k);
    assert forall|i: int| 2 <= i < a implies s[i] != '\n' && !opens_destination_at(s, i) by {
        assert(s[i] == alt[i - 2]);
        if i + 1 < a {
            assert(s[i + 1] == alt[i - 1]);
        } else {
            assert(s[i + 1] == ']');
        }
    }
    lemma_image_tail_run(s, 2, a);
    assert(s[a] == ']' && s[a + 1] == '(');
    assert(s[0] == '!' && s[1] == '[');
}

proof fn lemma_paren_close_shift(x: Seq<char>, y: Seq<char>, p: int)
    requires
        0 <= p,
    ensures
        paren_close(x + y, x.len() + p) == (match paren_close(y, p) {
            Some(k) => Some(x.len() + k),
            None => None,
        }),
    decreases y.len() - p,
{
    if p < y.len() {
        assert((x + y)[x.len() + p] == y[p]);
        lemma_paren_close_shift(x, y, p + 1);
    }
}

proof fn lemma_image_tail_shift(x: Seq<char>, y: Seq<char>, j: int)
    requires
        0 <= j,
    ensures
        image_tail(x + y, x.len() + j) == (match image_tail(y, j) {
            Some((a, k)) => Some((x.len() + a, x.len() + k)),
            None => None,
        }),
    decreases y.len() - j,
{
    let s = x + y;
    if j + 1 < y.len() {
        assert(s[x.len() + j] == y[j]);
        assert(s[x.len() + j + 1] == y[j + 1]);
        lemma_paren_close_shift(x, y, j + 2);
        lemma_image_tail_shift(x, y, j + 1);
    }
}

proof fn lemma_image_at_shift(x: Seq<char>, y: Seq<char>, i: int)
    requires
        0 <= i,
    ensures
        image_at(x + y, x.len() + i) == (match image_at(y, i) {
            Some((a, k)) => Some((x.len() + a, x.len() + k)),
            None => None,
        }),
{
    let s = x + y;
    if i + 1 < y.len() {
        assert(s[x.len() + i] == y[i]);
        assert(s[x.len() + i + 1] == y[i + 1]);
    }
    lemma_image_tail_shift(x, y, i + 2);
}

/// The alt texts of `x + y` past `x` are those of `y`.
proof fn lemma_alt_texts_shift(x: Seq<char>, y: Seq<char>, p: int)
    requires
        0 <= p,
    ensures
        alt_texts_from(x + y, x.len() + p) == alt_texts_from(y, p),
    decreases y.len() - p,
{
    let s = x + y;
    if p < y.len() {
        lemma_image_at_shift(x, y, p);
        match image_at(y, p) {
            Some((a, k)) => {
                lemma_image_at_bounds(y, p);
                assert(s.subrange(x.len() + p + 2, x.len() + a) =~= y.subrange(p + 2, a));
                lemma_alt_texts_shift(x, y, k + 1);
            },
            None => {
                lemma_alt_texts_shift(x, y, p + 1);
            },
        }
    }
}

/// No image starts before the first `!`.
proof fn lemma_alt_texts_skip(s: Seq<char>, p: int, k: int)
    requires
        0 <= p <= k <= s.len(),
        forall|i: int| p <= i < k ==> s[i] != '!',
    ensures
        alt_texts_from(s, p) == alt_texts_from(s, k),
    decreases k - p,
{
    if p < k {
        lemma_alt_texts_skip(s, p + 1, k);
    }
}

proof fn lemma_non_empty_concat(a: Seq<Seq<char>>, b: Seq<Seq<char>>)
    ensures
        non_empty(a + b) == non_empty(a) + non_empty(b),
    decreases a.len(),
{
    if a.len() > 0 {
        assert((a + b).drop_first() =~= a.drop_first() + b);
        assert((a + b)[0] == a[0]);
        lemma_non_empty_concat(a.drop_first(), b);
    } else {
        assert(a + b =~= b);
    }
}

/// An image in running text: after text without `!`, an image whose alt
/// text has no line break and no `](` and whose destination has no `)` and
/// no line break gives its alt text (when not empty), and then come the
/// alt texts of whatever follows it.
pub proof fn lemma_image_in_text(x: Seq<char>, alt: Seq<char>, dest: Seq<char>, y: Seq<char>)
    requires
        forall|i: int| 0 <= i < x.len() ==> x[i] != '!',
        forall|i: int| 0 <= i < alt.len() ==> alt[i] != '\n',
        forall|i: int| 0 <= i < alt.len() - 1 ==> !(#[trigger] alt[i] == ']' && alt[i + 1] == '('),
        forall|i: int| 0 <= i < dest.len() ==> dest[i] != ')' && dest[i] != '\n',
    ensures
        alt_texts_of(x + image_text(alt, dest) + y) == (if alt.len() > 0 {
            seq![alt]
        } else {
            Seq::<Seq<char>>::empty()
        }) + alt_texts_of(y),
{
    let img = image_text(alt, dest);
    let t = img + y;
    let s = x + t;
    assert(x + img + y =~= s);
    assert forall|i: int| 0 <= i < x.len() implies s[i] != '!' by {
        assert(s[i] == x[i]);
    }
    lemma_alt_texts_skip(s, 0, x.len() as int);
    lemma_alt_texts_shift(x, t, 0);
    lemma_image_at_start(alt, dest, y);
    assert(t.subrange(2, 2 + alt.len() as int) =~= alt);
    assert(alt_texts_from(t, 0) == seq![alt] + alt_texts_from(t, img.len() as int));
    lemma_alt_texts_shift(img, y, 0);
    lemma_non_empty_concat(seq![alt], alt_texts_from(y, 0));
    assert(seq![alt].drop_first() =~= Seq::<Seq<char>>::empty());
    assert(non_empty(seq![alt].drop_first()) == Seq::<Seq<char>>::empty());
    assert(non_empty(seq![alt]) =~= (if alt.len() > 0 {
        seq![alt]
    } else {
        Seq::<Seq<char>>::empty()
    }));
}

fn paren_close_in(v: &Vec<char>, p: usize) -> (r: Option<usize>)
    requires
        p <= v.len(),
    ensures
        match r {
            Some(k) => paren_close(v@, p as int) == Some(k as int),
            None => paren_close(v@, p as int) is None,
        },
{
    let mut q: usize = p;
    while q < v.len()
        invariant
            p <= q <= v.len(),
            paren_close(v@, p as int) == paren_close(v@, q as int),
        decreases v.len() - q,
    {
        if v[q] == ')' {
            return Some(q);
        }
        if v[q] == '\n' {
            return None;
        }
        q = q + 1;
    }
    None
}

fn image_in(v: &Vec<char>, i: usize) -> (r: Option<(usize, usize)>)
    requires
        i < v.len(),
    ensures
        match r {
            Some((a, k)) => image_at(v@, i as int) == Some((a as int, k as int)),
            None => image_at(v@, i as int) is None,
        },
{
    if !(i + 1 < v.len() && v[i] == '!' && v[i + 1] == '[') {
        return None;
    }
    let mut j: usize = i + 2;
    while j < v.len() - 1
        invariant
            i + 2 <= j <= v.len(),
            image_at(v@, i as int) == image_tail(v@, j as int),
        decreases v.len() - j,
    {
        if v[j] == '\n' {
            return None;
        }
        if v[j] == ']' && v[j + 1] == '(' {
            match paren_close_in(v, j + 2) {
                Some(k) => {
                    return Some((j, k));
                },
                None => {},
            }
        }
        j = j + 1;
    }
    None
}

fn link_in(v: &Vec<char>, i: usize) -> (r: Option<(usize, usize)>)
    requires
        i < v.len(),
    ensures
        match r {
            Some((j, k)) => link_at(v@, i as int) == Some((j as int, k as int)),
            None => link_at(v@, i as int) is None,
        },
{
    let n: usize = v.len();
    let ghost s = v@;
    assert(s.subrange(0, n as int) =~= s);
    if v[i] != '[' {
        return None;
    }
    let close = find_in(v, 0, i + 1, n, ']');
    assert(find_from(s, ']', i + 1) == match close {
        Some(j) => Some(j as int),
        None => None::<int>,
    });
    match close {
        None => None,
        Some(j) => {
            if j > i + 1 && j + 1 < n && v[j + 1] == '(' {
                let paren = find_in(v, 0, j + 2, n, ')');
                assert(find_from(s, ')', j + 2) == match paren {
                    Some(k) => Some(k as int),
                    None => None::<int>,
                });
                match paren {
                    Some(k) => {
                        if k > j + 2 {
                            Some((j, k))
                        } else {
                            None
                        }
                    },
                    None => None,
                }
            } else {
                None
            }
        },
    }
}

/// The alt texts of the images in a Markdown text, in their order, the empty
/// ones left out.
pub fn extract_alt_texts(text: &str) -> (r: Vec<String>)
    ensures
        r.deep_view() == alt_texts_of(text@),
{
    let v = to_chars(text);
    let ghost s = v@;
    let mut out: Vec<String> = Vec::new();
    let mut p: usize = 0;
    while p < v.len()
        invariant
            s == v@,
            0 <= p <= v.len(),
            out.deep_view() + non_empty(alt_texts_from(s, p as int)) == non_empty(
                alt_texts_from(s, 0),
            ),
        decreases v.len() - p,
    {
        match image_in(&v, p) {
            Some((a, k)) => {
                proof {
                    lemma_image_at_bounds(s, p as int);
                }
                let ghost alt = s.subrange(p + 2, a as int);
                let ghost rest = alt_texts_from(s, k + 1);
                assert(alt_texts_from(s, p as int) == seq![alt] + rest);
                assert((seq![alt] + rest).drop_first() =~= rest);
                let ghost before = out.deep_view();
                if p + 2 < a {
                    out.push(string_of_range(&v, p + 2, a));
                    assert(out.deep_view() =~= before + seq![alt]);
                    assert(before + (seq![alt] + non_empty(rest)) =~= out.deep_view() + non_empty(
                        rest,
                    ));
                }
                p = k + 1;
            },
            None => {
                p = p + 1;
            },
        }
    }
    out
}

/// Removes the images from `v`.
fn drop_images(v: &Vec<char>) -> (r: Vec<char>)
    ensures
        r@ == without_images_from(v@, 0),
{
    let ghost s = v@;
    let mut out: Vec<char> = Vec::new();
    let mut p: usize = 0;
    while p < v.len()
        invariant
            s == v@,
            0 <= p <= v.len(),
            out@ + without_images_from(s, p as int) == without_images_from(s, 0),
        decreases v.len() - p,
    {
        match image_in(v, p) {
            Some((a, k)) => {
                proof {
                    lemma_image_at_bounds(s, p as int);
                }
                p = k + 1;
            },
            None => {
                let ghost before = out@;
                out.push(v[p]);
                assert(before + without_images_from(s, p as int) =~= out@ + without_images_from(
                    s,
                    p + 1,
                ));
                p = p + 1;
            },
        }
    }
    assert(out@ =~= out@ + without_images_from(s, p as int));
    out
}

/// Replaces each link in `v` by its text.
fn drop_links(v: &Vec<char>) -> (r: Vec<char>)
    ensures
        r@ == unlinked_from(v@, 0),
{
    let ghost s = v@;
    let mut out: Vec<char> = Vec::new();
    let mut p: usize = 0;
    while p < v.len()
        invariant
            s == v@,
            0 <= p <= v.len(),
            out@ + unlinked_from(s, p as int) == unlinked_from(s, 0),
        decreases v.len() - p,
    {
        match link_in(v, p) {
            Some((j, k)) => {
                proof {
                    lemma_link_at_bounds(s, p as int);
                }
                let ghost before = out@;
                let mut q: usize = p + 1;
                while q < j
                    invariant
                        p + 1 <= q <= j < v.len(),
                        s == v@,
                        out@ == before + s.subrange(p + 1, q as int),
                    decreases j - q,
                {
                    out.push(v[q]);
                    q = q + 1;
                    assert(out@ =~= before + s.subrange(p + 1, q as int));
                }
                assert(before + unlinked_from(s, p as int) =~= out@ + unlinked_from(s, k + 1));
                p = k + 1;
            },
            None => {
                let ghost before = out@;
                out.push(v[p]);
                assert(before + unlinked_from(s, p as int) =~= out@ + unlinked_from(s, p + 1));
                p = p + 1;
            },
        }
    }
    assert(out@ =~= out@ + unlinked_from(s, p as int));
    out
}

/// Cuts each run of line breaks in `v` down to one.
fn single_space(v: &Vec<char>) -> (r: Vec<char>)
    ensures
        r@ == single_spaced_from(v@, 0),
{
    let ghost s = v@;
    let mut out: Vec<char> = Vec::new();
    let mut p: usize = 0;
    while p < v.len()
        invariant
            s == v@,
            0 <= p <= v.len(),
            out@ + single_spaced_from(s, p as int) == single_spaced_from(s, 0),
        decreases v.len() - p,
    {
        if !(p > 0 && v[p] == '\n' && v[p - 1] == '\n') {
            let ghost before = out@;
            out.push(v[p]);
            assert(before + single_spaced_from(s, p as int) =~= out@ + single_spaced_from(
                s,
                p + 1,
            ));
        }
        p = p + 1;
    }
    assert(out@ =~= out@ + single_spaced_from(s, p as int));
    out
}

/// A Markdown body made ready for embedding: images removed, links replaced
/// by their text, runs of line breaks cut down to one, and the result
/// trimmed.
pub fn clean_markdown(text: &str) -> (r: String)
    ensures
        r@ == cleaned(text@),
{
    let v = to_chars(text);
    let t1 = drop_images(&v);
    let t2 = drop_links(&t1);
    let t3 = single_space(&t2);
    let (a, b) = trim_range(&t3, 0, t3.len(), CharClass::Space);
    assert(t3@.subrange(0, t3.len() as int) =~= t3@);
    string_of_range(&t3, a, b)
}

} // verus!
