//! File names as the service sees them: the last component of a path, its
//! extension and stem, which files count as images, and which names are safe
//! to look up in the upload directory.
use vstd::prelude::*;
use crate::text::{split_on, split_ranges, to_chars, string_of_range};

verus! {

/// A piece of a path that names something: not empty and not `.`.
pub open spec fn is_component(seg: Seq<char>) -> bool {
    seg.len() > 0 && seg != seq!['.']
}

/// The last piece of `parts` that names something.
pub open spec fn last_component(parts: Seq<Seq<char>>) -> Option<Seq<char>>
    decreases parts.len(),
{
    if parts.len() == 0 {
        None
    } else if is_component(parts.last()) {
        Some(parts.last())
    } else {
        last_component(parts.drop_last())
    }
}

/// What `Path::file_name` gives for a path written with `/`: its last
/// component, unless that is `..` or there is none.
pub open spec fn file_name(path: Seq<char>) -> Option<Seq<char>> {
    match last_component(split_on(path, '/')) {
        Some(c) => if c == seq!['.', '.'] {
            None
        } else {
            Some(c)
        },
        None => None,
    }
}

/// The index of the last `c` in `s`.
pub open spec fn rfind(s: Seq<char>, c: char) -> Option<int>
    decreases s.len(),
{
    if s.len() == 0 {
        None
    } else if s.last() == c {
        Some(s.len() - 1)
    } else {
        rfind(s.drop_last(), c)
    }
}

/// The extension of a file name: what follows its last dot, when that dot is
/// not its first character.
pub open spec fn extension_of(name: Seq<char>) -> Option<Seq<char>> {
    match rfind(name, '.') {
        Some(k) => if k == 0 {
            None
        } else {
            Some(name.subrange(k + 1, name.len() as int))
        },
        None => None,
    }
}

/// The stem of a file name: what comes before its last dot, when that dot is
/// not its first character; else the whole name.
pub open spec fn stem_of(name: Seq<char>) -> Seq<char> {
    match rfind(name, '.') {
        Some(k) => if k == 0 {
            name
        } else {
            name.subrange(0, k)
        },
        None => name,
    }
}

/// What `Path::extension` gives.
pub open spec fn file_extension(path: Seq<char>) -> Option<Seq<char>> {
    match file_name(path) {
        Some(n) => extension_of(n),
        None => None,
    }
}

/// What `Path::file_stem` gives.
pub open spec fn file_stem(path: Seq<char>) -> Option<Seq<char>> {
    match file_name(path) {
        Some(n) => Some(stem_of(n)),
        None => None,
    }
}

/// The ASCII lower case of `c`; other characters stay as they are.
pub open spec fn ascii_lower(c: char) -> char {
    if 'A' <= c <= 'Z' {
        ((c as u32) + 32) as char
    } else {
        c
    }
}

/// Whether `s` lower-cased is `lit` (a lower-case ASCII word).
pub open spec fn lower_is(s: Seq<char>, lit: Seq<char>) -> bool {
    s.len() == lit.len() && forall|i: int| 0 <= i < s.len() ==> ascii_lower(#[trigger] s[i]) == lit[i]
}

/// The kinds of image the service stores.
#[derive(Clone, Copy, PartialEq, Eq, Structural, Debug)]
pub enum ImageKind {
    Jpeg,
    Png,
}

/// The kind of image an extension names: `jpg` or `jpeg` for JPEG, `png` for
/// PNG, in any letter case. No other character lower-cases to one of these
/// ASCII letters, so this is what comparing `to_lowercase()` with them gives.
pub open spec fn kind_of_extension(ext: Seq<char>) -> Option<ImageKind> {
    if lower_is(ext, seq!['j', 'p', 'g']) || lower_is(ext, seq!['j', 'p', 'e', 'g']) {
        Some(ImageKind::Jpeg)
    } else if lower_is(ext, seq!['p', 'n', 'g']) {
        Some(ImageKind::Png)
    } else {
        None
    }
}

/// The kind of image a path names, by its extension.
pub open spec fn image_kind_of(path: Seq<char>) -> Option<ImageKind> {
    match file_extension(path) {
        Some(e) => kind_of_extension(e),
        None => None,
    }
}

/// `s` with each ASCII capital letter made small.
pub open spec fn ascii_lowered(s: Seq<char>) -> Seq<char> {
    s.map_values(|c: char| ascii_lower(c))
}

/// A path names an image exactly when its extension, ASCII-lower-cased, is
/// one of the three words `jpg`, `jpeg` and `png`: the first two name a
/// JPEG image, the third a PNG image, and no other extension names one.
pub proof fn lemma_image_kind_by_extension(path: Seq<char>)
    ensures
        image_kind_of(path) is Some ==> file_extension(path) is Some,
        file_extension(path) matches Some(e) ==> {
            let l = ascii_lowered(e);
            &&& image_kind_of(path) == Some(ImageKind::Jpeg) <==> (l == seq!['j', 'p', 'g'] || l
                == seq!['j', 'p', 'e', 'g'])
            &&& image_kind_of(path) == Some(ImageKind::Png) <==> l == seq!['p', 'n', 'g']
            &&& image_kind_of(path) is None <==> (l != seq!['j', 'p', 'g'] && l != seq![
                'j',
                'p',
                'e',
                'g',
            ] && l != seq!['p', 'n', 'g'])
        },
{
    if let Some(e) = file_extension(path) {
        let l = ascii_lowered(e);
        assert forall|lit: Seq<char>| lower_is(e, lit) <==> l == lit by {
            if lower_is(e, lit) {
                assert(l =~= lit);
            }
            if l == lit {
                assert forall|i: int| 0 <= i < e.len() implies ascii_lower(#[trigger] e[i]) == lit[i] by {
                    assert(l[i] == ascii_lower(e[i]));
                }
            }
        }
        assert(seq!['j', 'p', 'g'] != seq!['p', 'n', 'g']) by {
            assert(seq!['j', 'p', 'g'][0] != seq!['p', 'n', 'g'][0]);
        }
        assert(seq!['j', 'p', 'e', 'g'].len() != seq!['p', 'n', 'g'].len());
    }
}

/// Whether `name` holds `..` at index `i`.
pub open spec fn double_dot_at(name: Seq<char>, i: int) -> bool {
    0 <= i < name.len() - 1 && name[i] == '.' && name[i + 1] == '.'
}

/// Whether the name holds `..`, `/` or `\`, any of which could lead out of
/// the upload directory.
pub open spec fn escapes_directory(name: Seq<char>) -> bool {
    ||| exists|i: int| #[trigger] double_dot_at(name, i)
    ||| name.contains('/')
    ||| name.contains('\\')
}

fn lower_char(c: char) -> (r: char)
    ensures
        r == ascii_lower(c),
{
    if 'A' <= c && c <= 'Z' {
        proof {
            assert((c as u32) + 32 < 0xD800);
        }
        ((c as u8) + 32) as char
    } else {
        c
    }
}

fn range_lower_is(v: &Vec<char>, lo: usize, hi: usize, lit: &Vec<char>) -> (r: bool)
    requires
        lo <= hi <= v.len(),
    ensures
        r == lower_is(v@.subrange(lo as int, hi as int), lit@),
{
    if hi - lo != lit.len() {
        return false;
    }
    let mut i: usize = 0;
    while i < lit.len()
        invariant
            lo <= hi <= v.len(),
            hi - lo == lit.len(),
            0 <= i <= lit.len(),
            forall|k: int| 0 <= k < i ==> ascii_lower(v@[lo + k]) == lit@[k],
        decreases lit.len() - i,
    {
        if lower_char(v[lo + i]) != lit[i] {
            assert(ascii_lower(v@.subrange(lo as int, hi as int)[i as int]) != lit@[i as int]);
            return false;
        }
        i = i + 1;
    }
    assert forall|k: int| 0 <= k < hi - lo implies ascii_lower(
        #[trigger] v@.subrange(lo as int, hi as int)[k],
    ) == lit@[k] by {
        assert(v@.subrange(lo as int, hi as int)[k] == v@[lo + k]);
    }
    true
}

/// The bounds of the file name of the path `v`, if it has one.
fn file_name_range(v: &Vec<char>) -> (r: Option<(usize, usize)>)
    ensures
        match r {
            Some((a, b)) => a <= b <= v.len() && file_name(v@) == Some(
                v@.subrange(a as int, b as int),
            ),
            None => file_name(v@) is None,
        },
{
    let parts = split_ranges(v, 0, v.len(), '/');
    assert(v@.subrange(0, v.len() as int) =~= v@);
    let ghost pieces = split_on(v@, '/');
    let mut best: Option<(usize, usize)> = None;
    let mut i: usize = 0;
    while i < parts.len()
        invariant
            0 <= i <= parts.len(),
            pieces == split_on(v@, '/'),
            parts.len() == pieces.len(),
            forall|j: int|
                0 <= j < parts.len() ==> 0 <= (#[trigger] parts[j]).0 <= parts[j].1 <= v.len()
                    && v@.subrange(parts[j].0 as int, parts[j].1 as int) == pieces[j],
            match best {
                Some((a, b)) => a <= b <= v.len() && last_component(pieces.take(i as int))
                    == Some(v@.subrange(a as int, b as int)),
                None => last_component(pieces.take(i as int)) is None,
            },
        decreases parts.len() - i,
    {
        let (a, b) = parts[i];
        assert(pieces.take(i + 1).drop_last() =~= pieces.take(i as int));
        assert(pieces.take(i + 1).last() == pieces[i as int]);
        let is_dot = b - a == 1 && v[a] == '.';
        proof {
            let sub = v@.subrange(a as int, b as int);
            let dot = seq!['.'];
            assert(dot.len() == 1 && dot[0] == '.');
            if sub == dot {
                assert(sub[0] == v@[a as int]);
            }
            if b - a == 1 && v@[a as int] == '.' {
                assert(sub =~= dot);
            }
        }
        if a < b && !is_dot {
            best = Some((a, b));
        }
        i = i + 1;
    }
    assert(pieces.take(parts.len() as int) =~= pieces);
    match best {
        Some((a, b)) => {
            let is_dotdot = b - a == 2 && v[a] == '.' && v[a + 1] == '.';
            proof {
                let sub = v@.subrange(a as int, b as int);
                let dd = seq!['.', '.'];
                assert(dd.len() == 2 && dd[0] == '.' && dd[1] == '.');
                if sub == dd {
                    assert(sub[0] == v@[a as int]);
                    assert(sub[1] == v@[a + 1]);
                }
                if b - a == 2 && v@[a as int] == '.' && v@[a + 1] == '.' {
                    assert(sub =~= dd);
                }
            }
            if is_dotdot {
                None
            } else {
                Some((a, b))
            }
        },
        None => None,
    }
}

/// The index of the last `c` in `v[lo..hi]`, counted from `lo`.
fn rfind_range(v: &Vec<char>, lo: usize, hi: usize, c: char) -> (r: Option<usize>)
    requires
        lo <= hi <= v.len(),
    ensures
        match r {
            Some(k) => k < hi - lo && rfind(v@.subrange(lo as int, hi as int), c) == Some(
                k as int,
            ),
            None => rfind(v@.subrange(lo as int, hi as int), c) is None,
        },
{
    let mut e: usize = hi;
    while e > lo
        invariant
            lo <= e <= hi <= v.len(),
            rfind(v@.subrange(lo as int, hi as int), c) == rfind(
                v@.subrange(lo as int, e as int),
                c,
            ),
        decreases e - lo,
    {
        if v[e - 1] == c {
            return Some(e - 1 - lo);
        }
        assert(v@.subrange(lo as int, e as int).drop_last() =~= v@.subrange(
            lo as int,
            e - 1,
        ));
        e = e - 1;
    }
    None
}

/// Which kind of image the path names, going by its extension.
pub fn image_kind(path: &str) -> (r: Option<ImageKind>)
    ensures
        r == image_kind_of(path@),
{
    let v = to_chars(path);
    match file_name_range(&v) {
        None => None,
        Some((a, b)) => {
            match rfind_range(&v, a, b, '.') {
                None => None,
                Some(k) => {
                    if k == 0 {
                        None
                    } else {
                        let ghost name = v@.subrange(a as int, b as int);
                        assert(name.subrange(k + 1, name.len() as int) =~= v@.subrange(
                            a + k + 1,
                            b as int,
                        ));
                        let jpg = vec!['j', 'p', 'g'];
                        let jpeg = vec!['j', 'p', 'e', 'g'];
                        let png = vec!['p', 'n', 'g'];
                        assert(jpg@ =~= seq!['j', 'p', 'g']);
                        assert(jpeg@ =~= seq!['j', 'p', 'e', 'g']);
                        assert(png@ =~= seq!['p', 'n', 'g']);
                        if range_lower_is(&v, a + k + 1, b, &jpg) || range_lower_is(
                            &v,
                            a + k + 1,
                            b,
                            &jpeg,
                        ) {
                            Some(ImageKind::Jpeg)
                        } else if range_lower_is(&v, a + k + 1, b, &png) {
                            Some(ImageKind::Png)
                        } else {
                            None
                        }
                    }
                },
            }
        },
    }
}

/// Whether the file is one of the images the service handles (`jpg`, `jpeg`
/// or `png`, in any letter case).
pub fn is_image_file(path: &str) -> (r: bool)
    ensures
        r == (image_kind_of(path@) is Some),
{
    image_kind(path).is_some()
}

/// The stem of the file that a path names (`Path::file_stem`).
pub fn path_file_stem(path: &str) -> (r: Option<String>)
    ensures
        match r {
            Some(s) => file_stem(path@) == Some(s@),
            None => file_stem(path@) is None,
        },
{
    let v = to_chars(path);
    match file_name_range(&v) {
        None => None,
        Some((a, b)) => {
            let ghost name = v@.subrange(a as int, b as int);
            match rfind_range(&v, a, b, '.') {
                Some(k) => {
                    if k == 0 {
                        Some(string_of_range(&v, a, b))
                    } else {
                        assert(name.subrange(0, k as int) =~= v@.subrange(
                            a as int,
                            a + k,
                        ));
                        Some(string_of_range(&v, a, a + k))
                    }
                },
                None => Some(string_of_range(&v, a, b)),
            }
        },
    }
}

/// The content type under which an image is served: `image/jpeg` for JPEG
/// files, `image/png` for PNG files, `application/octet-stream` for the rest.
pub fn content_type_for(name: &str) -> (r: &'static str)
    ensures
        r@ == (match image_kind_of(name@) {
            Some(ImageKind::Jpeg) => "image/jpeg"@,
            Some(ImageKind::Png) => "image/png"@,
            None => "application/octet-stream"@,
        }),
{
    match image_kind(name) {
        Some(ImageKind::Jpeg) => "image/jpeg",
        Some(ImageKind::Png) => "image/png",
        None => "application/octet-stream",
    }
}

/// Whether a requested file name may be looked up in the upload directory:
/// it may hold none of `..`, `/` and `\`.
pub fn is_safe_filename(name: &str) -> (r: bool)
    ensures
        r == !escapes_directory(name@),
{
    let v = to_chars(name);
    let mut i: usize = 0;
    while i < v.len()
        invariant
            0 <= i <= v.len(),
            v@ == name@,
            forall|k: int| 0 <= k < i ==> v@[k] != '/' && v@[k] != '\\',
            forall|k: int| 0 <= k < i ==> !(#[trigger] double_dot_at(name@, k)),
        decreases v.len() - i,
    {
        if v[i] == '/' || v[i] == '\\' {
            if v[i] == '/' {
                assert(name@.contains('/')) by {
                    assert(name@[i as int] == '/');
                }
            } else {
                assert(name@.contains('\\')) by {
                    assert(name@[i as int] == '\\');
                }
            }
            return false;
        }
        if i + 1 < v.len() && v[i] == '.' && v[i + 1] == '.' {
            assert(double_dot_at(name@, i as int));
            return false;
        }
        i = i + 1;
    }
    true
}

} // verus!
