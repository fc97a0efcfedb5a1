//! A blog post as the search index sees it, read from its Markdown source,
//! and the texts made from it for embedding and for morphological analysis.
use vstd::prelude::*;
use crate::text::{join, join_strings, join_words};
use crate::morphology::MorphologyError;
use crate::paths::{file_stem, path_file_stem};
use crate::frontmatter::{Metadata, front_matter_of, parse_frontmatter};
use crate::markdown::{alt_texts_of, clean_markdown, cleaned, extract_alt_texts};

verus! {

#[derive(Debug, Clone)]
pub struct Post {
    pub filename: String,
    pub filepath: String,
    pub title: String,
    pub date: String,
    pub thumbnail: Option<String>,
    pub menus: Vec<String>,
    pub genres: Vec<String>,
    pub body: String,
    pub alt_texts: Vec<String>,
}

/// The alt texts as they are appended to a text: nothing when there are
/// none, else a space and the alt texts separated by spaces.
pub open spec fn alt_suffix(alt_texts: Seq<Seq<char>>) -> Seq<char> {
    if alt_texts.len() == 0 {
        seq![]
    } else {
        seq![' '] + join(alt_texts, seq![' '])
    }
}

/// The text of a post that morphological analysis reads: title, a space,
/// body, then the alt texts.
pub open spec fn morphology_text_of(p: Post) -> Seq<char> {
    p.title@ + seq![' '] + p.body@ + alt_suffix(p.alt_texts.deep_view())
}

/// The text of a post that is embedded: the passage prefix that the e5 model
/// expects, then the same text as for morphological analysis.
pub open spec fn embedding_text_of(p: Post) -> Seq<char> {
    "passage: "@ + morphology_text_of(p)
}

/// The text embedded for a post is its morphology text behind the passage
/// prefix that the e5 model expects.
pub proof fn lemma_embedding_text_is_prefixed(p: Post)
    ensures
        embedding_text_of(p) == "passage: "@ + morphology_text_of(p),
{
}

/// Every alt text of a post comes into both of its texts, after the body:
/// with no alt texts the morphology text is the title, a space and the body;
/// with some, it goes on with a space and the alt texts separated by spaces
/// (a single alt text `a` adds exactly `" " + a`); the embedding text is the
/// same behind `passage: `.
pub proof fn lemma_alt_texts_follow_the_body(p: Post)
    ensures
        p.alt_texts.len() == 0 ==> morphology_text_of(p) == p.title@ + seq![' '] + p.body@,
        p.alt_texts.len() > 0 ==> morphology_text_of(p) == p.title@ + seq![' '] + p.body@
            + seq![' '] + join(p.alt_texts.deep_view(), seq![' ']),
        p.alt_texts.len() == 1 ==> morphology_text_of(p) == p.title@ + seq![' '] + p.body@
            + seq![' '] + p.alt_texts[0]@,
        p.alt_texts.len() == 0 ==> embedding_text_of(p) == "passage: "@ + p.title@ + seq![' ']
            + p.body@,
        p.alt_texts.len() > 0 ==> embedding_text_of(p) == "passage: "@ + p.title@ + seq![' ']
            + p.body@ + seq![' '] + join(p.alt_texts.deep_view(), seq![' ']),
        p.alt_texts.len() == 1 ==> embedding_text_of(p) == "passage: "@ + p.title@ + seq![' ']
            + p.body@ + seq![' '] + p.alt_texts[0]@,
{
    let alts = p.alt_texts.deep_view();
    let head = p.title@ + seq![' '] + p.body@;
    if p.alt_texts.len() == 0 {
        assert(morphology_text_of(p) =~= head);
    } else {
        assert(morphology_text_of(p) =~= head + seq![' '] + join(alts, seq![' ']));
        if p.alt_texts.len() == 1 {
            assert(join(alts, seq![' ']) == alts[0]);
        }
    }
    assert(embedding_text_of(p) =~= "passage: "@ + morphology_text_of(p));
}

/// Appends `alt_suffix(alt_texts)` to `text`.
fn append_alt_texts(text: &mut String, alt_texts: &Vec<String>)
    ensures
        final(text)@ == old(text)@ + alt_suffix(alt_texts.deep_view()),
{
    if alt_texts.len() != 0 {
        proof {
            reveal_strlit(" ");
        }
        assert(" "@ =~= seq![' ']);
        text.append(" ");
        let joined = join_strings(alt_texts, " ");
        text.append(joined.as_str());
        assert(text@ =~= old(text)@ + alt_suffix(alt_texts.deep_view()));
    } else {
        assert(alt_texts.deep_view().len() == 0);
        assert(old(text)@ + alt_suffix(alt_texts.deep_view()) =~= old(text)@);
    }
}

impl Post {
    /// The text to embed for this post: `passage: `, the title, a space, the
    /// body and, if there are any, a space and the alt texts joined by spaces.
    pub fn text_for_embedding(&self) -> (r: String)
        ensures
            r@ == embedding_text_of(*self),
    {
        let mut text = String::from_str("passage: ");
        proof {
            reveal_strlit(" ");
        }
        text.append(self.title.as_str());
        text.append(" ");
        text.append(self.body.as_str());
        append_alt_texts(&mut text, &self.alt_texts);
        assert(text@ =~= embedding_text_of(*self));
        text
    }
}

/// The text of a post for morphological analysis: the title, a space, the
/// body and, if there are any, a space and the alt texts joined by spaces
/// (the embedding text without its `passage: ` prefix).
pub fn create_morphology_text(post: &Post) -> (r: String)
    ensures
        r@ == morphology_text_of(*post),
{
    let mut text = post.title.clone();
    proof {
        reveal_strlit(" ");
    }
    text.append(" ");
    text.append(post.body.as_str());
    append_alt_texts(&mut text, &post.alt_texts);
    assert(text@ =~= morphology_text_of(*post));
    text
}

/// Whether the metadata marks the post as a draft: `draft` is set to `true`.
/// The tokens that a post is indexed with, and its search text (the tokens
/// separated by spaces), from the outcome of its morphological analysis: a
/// post whose analysis failed is indexed with no tokens.
pub fn index_tokens(analysis: Result<Vec<String>, MorphologyError>) -> (r: (Vec<String>, String))
    ensures
        r.0.deep_view() == (match analysis {
            Ok(v) => v.deep_view(),
            Err(_) => Seq::<Seq<char>>::empty(),
        }),
        r.1@ == join(r.0.deep_view(), seq![' ']),
{
    let tokens = match analysis {
        Ok(v) => v,
        Err(_) => Vec::new(),
    };
    let search_text = join_words(&tokens);
    (tokens, search_text)
}

pub open spec fn is_draft(meta: Map<Seq<char>, Seq<char>>) -> bool {
    meta.contains_key("draft"@) && meta["draft"@] == "true"@
}

/// The value of a metadata key, or the empty string when it is not set.
pub open spec fn value_or_empty(meta: Map<Seq<char>, Seq<char>>, key: Seq<char>) -> Seq<char> {
    if meta.contains_key(key) {
        meta[key]
    } else {
        seq![]
    }
}

/// The post that the Markdown source `content`, read from `filepath`, holds:
/// none for a draft or for a path that names no file; else the file's stem as
/// its name, the front matter's title, date, thumbnail, menus and genres, the
/// body cleaned of Markdown and the alt texts of the body's images.
pub open spec fn post_matches(p: Post, filepath: Seq<char>, content: Seq<char>) -> bool {
    let f = front_matter_of(content);
    &&& file_stem(filepath) == Some(p.filename@)
    &&& p.filepath@ == filepath
    &&& p.title@ == value_or_empty(f.0, "title"@)
    &&& p.date@ == value_or_empty(f.0, "date"@)
    &&& (match p.thumbnail {
        Some(t) => f.0.contains_key("thumbnail"@) && f.0["thumbnail"@] == t@,
        None => !f.0.contains_key("thumbnail"@),
    })
    &&& p.menus.deep_view() == f.1
    &&& p.genres.deep_view() == f.2
    &&& p.body@ == cleaned(f.3)
    &&& p.alt_texts.deep_view() == alt_texts_of(f.3)
}

fn value_or_empty_of(meta: &Metadata, key: &str) -> (r: String)
    ensures
        r@ == value_or_empty(meta@, key@),
{
    match meta.get(key) {
        Some(v) => v.clone(),
        None => String::new(),
    }
}

/// Reads a post from its Markdown source `content`, found at `filepath`.
/// Drafts give `None`, and so does a path that names no file.
pub fn post_from_markdown(filepath: &str, content: &str) -> (r: Option<Post>)
    ensures
        match r {
            Some(p) => !is_draft(front_matter_of(content@).0) && post_matches(p, filepath@, content@),
            None => is_draft(front_matter_of(content@).0) || file_stem(filepath@) is None,
        },
{
    let (metadata, menus, genres, body) = parse_frontmatter(content);
    let alt_texts = extract_alt_texts(body.as_str());
    let clean_body = clean_markdown(body.as_str());
    let draft = match metadata.get("draft") {
        Some(v) => {
            let t = String::from_str("true");
            *v == t
        },
        None => false,
    };
    if draft {
        return None;
    }
    let filename = match path_file_stem(filepath) {
        Some(stem) => stem,
        None => {
            return None;
        },
    };
    let title = value_or_empty_of(&metadata, "title");
    let date = value_or_empty_of(&metadata, "date");
    let thumbnail = match metadata.get("thumbnail") {
        Some(t) => Some(t.clone()),
        None => None,
    };
    Some(
        Post {
            filename,
            filepath: String::from_str(filepath),
            title,
            date,
            thumbnail,
            menus,
            genres,
            body: clean_body,
            alt_texts,
        },
    )
}

/// The address of a post on the site: `/posts/`, its name and a slash.
pub fn post_url(filename: &str) -> (r: String)
    ensures
        r@ == "/posts/"@ + filename@ + "/"@,
{
    let mut r = String::from_str("/posts/");
    r.append(filename);
    r.append("/");
    r
}

} // verus!
