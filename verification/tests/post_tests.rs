use regex::Regex;
use std::collections::HashMap;

use rust_app::frontmatter::parse_frontmatter;
use rust_app::markdown::{clean_markdown, extract_alt_texts};
use rust_app::post::{create_morphology_text, post_from_markdown, post_url, Post};

// Regex-based readings of the same formats, used to cross-check the parsers.

fn regex_frontmatter(content: &str) -> (HashMap<String, String>, Vec<String>, Vec<String>, String) {
    let pattern = Regex::new(r"(?s)^\+\+\+\n(.*?)\n\+\+\+\n(.*)$").unwrap();
    let Some(caps) = pattern.captures(content) else {
        return (HashMap::new(), vec![], vec![], content.to_string());
    };
    let frontmatter_str = &caps[1];
    let body = caps[2].trim().to_string();
    let mut metadata = HashMap::new();
    let mut menus = Vec::new();
    let mut genres = Vec::new();
    for line in frontmatter_str.lines() {
        if let Some((key, value)) = line.split_once('=') {
            let key = key.trim();
            let value = value.trim();
            if value.starts_with('[') && value.ends_with(']') {
                let inner = &value[1..value.len() - 1];
                let items: Vec<String> = inner
                    .split(',')
                    .map(|s| s.trim().trim_matches(|c| c == '\'' || c == '"').to_string())
                    .filter(|s| !s.is_empty())
                    .collect();
                match key {
                    "menus" => menus = items,
                    "genres" => genres = items,
                    _ => {}
                }
            } else {
                let cleaned = value
                    .trim_start_matches(|c| c == '\'' || c == '"')
                    .trim_end_matches(|c| c == '\'' || c == '"')
                    .to_string();
                metadata.insert(key.to_string(), cleaned);
            }
        }
    }
    (metadata, menus, genres, body)
}

fn regex_alt_texts(text: &str) -> Vec<String> {
    let re = Regex::new(r"!\[(.*?)\]\(.*?\)").unwrap();
    re.captures_iter(text)
        .filter_map(|cap| cap.get(1))
        .map(|m| m.as_str().to_string())
        .filter(|s| !s.is_empty())
        .collect()
}

fn regex_clean(text: &str) -> String {
    let re_images = Regex::new(r"!\[.*?\]\(.*?\)").unwrap();
    let text = re_images.replace_all(text, "");
    let re_links = Regex::new(r"\[([^\]]+)\]\([^\)]+\)").unwrap();
    let text = re_links.replace_all(&text, "$1");
    let re_newlines = Regex::new(r"\n+").unwrap();
    let text = re_newlines.replace_all(&text, "\n");
    text.trim().to_string()
}

fn samples() -> Vec<&'static str> {
    vec![
        "",
        "plain text",
        "Hello ![img](url) and [link](http://example.com)",
        "![a](b)![c](d) text ![](e) ![f](g",
        "![multi\nline](x) ![ok](y)",
        "![a](b\n) ![c](d)",
        "![a]](b) ![a](b)c)",
        "![x] (y) [z](w) [](q) [a]() [b](c",
        "[outer [inner](u)](v)",
        "![[a](b)](c)",
        "line1\n\n\nline2\n\n\n\nline3\n",
        "  \n\n lead and trail \n\n ",
        "日本語の![写真](/photo/a.jpg)本文と[リンク](https://example.com)です\n\n\n終わり",
        "!![a](b)",
        "[a](b)(c)",
        "\r\n\r\nwindows\r\n\r\n",
        "+++\ntitle = \"T\"\n+++\nbody",
        "+++\n+++\nno front",
        "+++\n\n+++\nempty front",
        "+++\ntitle = 'A'\ndraft = true\nmenus = [ 'x' , \"y\",, '' ]\ngenres = []\n+++\n\n  body text \n",
        "+++\ntitle = \"first\"\ntitle = \"second\"\nkey=value=more\nnoequals\n = lonely\n+++\nrest\n+++\nmore",
        "+++\r\ntitle = \"crlf\"\r\n+++\r\nbody",
        "+++\ntitle = \"crlf\"\r\ndate = 2024-01-01\r\n+++\nbody\r\n",
        "+++\nmenus = [\"'quoted'\"]\nother = [\"a\"]\nthumb = \"\"\"x\"\"\"\n+++\nb",
        "+++\ntitle = \"no end\"\n",
        "++\ntitle = \"bad open\"\n+++\nbody",
        "+++\nunicode = \"ふくよか\"\u{3000}\n+++\n\u{3000}本文\u{3000}",
    ]
}

#[test]
fn test_parse_frontmatter() {
    let content = r#"+++
title = "Test Post"
date = "2024-01-01"
menus = ['tag1', 'tag2']
+++
This is the body."#;

    let (metadata, menus, _, body) = parse_frontmatter(content);
    assert_eq!(metadata.get("title").unwrap(), "Test Post");
    assert_eq!(menus, vec!["tag1", "tag2"]);
    assert_eq!(body, "This is the body.");
}

#[test]
fn test_clean_markdown() {
    let text = "Hello ![img](url) and [link](http://example.com)";
    let cleaned = clean_markdown(text);
    assert_eq!(cleaned, "Hello  and link");
}

#[test]
fn frontmatter_agrees_with_regex_reading() {
    for s in samples() {
        let (meta, menus, genres, body) = parse_frontmatter(s);
        let (rmeta, rmenus, rgenres, rbody) = regex_frontmatter(s);
        assert_eq!(menus, rmenus, "menus of {:?}", s);
        assert_eq!(genres, rgenres, "genres of {:?}", s);
        assert_eq!(body, rbody, "body of {:?}", s);
        for (k, v) in rmeta.iter() {
            assert_eq!(meta.get(k), Some(v), "key {:?} of {:?}", k, s);
        }
        for k in ["title", "date", "draft", "key", "thumb", "unicode", "", "other", "menus"] {
            assert_eq!(meta.get(k).is_some(), rmeta.contains_key(k), "key {:?} of {:?}", k, s);
        }
    }
}

#[test]
fn alt_texts_agree_with_regex_reading() {
    for s in samples() {
        assert_eq!(extract_alt_texts(s), regex_alt_texts(s), "alt texts of {:?}", s);
    }
}

#[test]
fn cleaning_agrees_with_regex_reading() {
    for s in samples() {
        assert_eq!(clean_markdown(s), regex_clean(s), "cleaning of {:?}", s);
    }
}

#[test]
fn frontmatter_later_setting_wins_and_lists_are_kept() {
    let (meta, menus, genres, body) = parse_frontmatter(
        "+++\ntitle = \"first\"\ntitle = 'second'\nmenus = [a, 'b', \"\"]\ngenres = [\"和食\"]\nother = [x]\n+++\n\n body \n",
    );
    assert_eq!(meta.get("title").unwrap(), "second");
    assert_eq!(meta.get("other"), None);
    assert_eq!(menus, vec!["a", "b"]);
    assert_eq!(genres, vec!["和食"]);
    assert_eq!(body, "body");
}

#[test]
fn text_without_front_matter_is_all_body() {
    let (meta, menus, genres, body) = parse_frontmatter("  just text  ");
    assert_eq!(meta.get("title"), None);
    assert!(menus.is_empty() && genres.is_empty());
    assert_eq!(body, "  just text  ");
    let (_, _, _, body) = parse_frontmatter("+++\ntitle = \"x\"\nno closing fence");
    assert_eq!(body, "+++\ntitle = \"x\"\nno closing fence");
}

#[test]
fn alt_texts_skip_empty_and_line_broken_ones() {
    assert_eq!(extract_alt_texts("![a](1) ![](2) ![b\nc](3) ![d](4)"), vec!["a", "d"]);
    assert_eq!(extract_alt_texts("no images here"), Vec::<String>::new());
}

#[test]
fn cleaning_collapses_blank_lines_and_trims() {
    assert_eq!(clean_markdown("\n\na\n\n\nb [c](d)\n"), "a\nb c");
    assert_eq!(clean_markdown("![only](image)"), "");
}

fn sample_post() -> Post {
    Post {
        filename: "ramen".to_string(),
        filepath: "posts/ramen.md".to_string(),
        title: "ラーメン".to_string(),
        date: "2024-01-01".to_string(),
        thumbnail: None,
        menus: vec![],
        genres: vec![],
        body: "おいしい".to_string(),
        alt_texts: vec!["丼".to_string(), "麺".to_string()],
    }
}

#[test]
fn embedding_text_has_passage_prefix_and_alt_texts() {
    let post = sample_post();
    assert_eq!(post.text_for_embedding(), "passage: ラーメン おいしい 丼 麺");
    assert_eq!(create_morphology_text(&post), "ラーメン おいしい 丼 麺");
    let mut bare = sample_post();
    bare.alt_texts.clear();
    assert_eq!(bare.text_for_embedding(), "passage: ラーメン おいしい");
    assert_eq!(create_morphology_text(&bare), "ラーメン おいしい");
}

#[test]
fn post_is_read_from_markdown() {
    let content = "+++\ntitle = \"Curry\"\ndate = \"2024-02-03\"\nthumbnail = \"/photo/c.jpg\"\nmenus = ['カレー']\ngenres = ['洋食']\n+++\n![皿](/photo/c.jpg)\n\n\n[店](https://example.com) で食べた\n";
    let post = post_from_markdown("frontend/content/posts/curry.md", content).unwrap();
    assert_eq!(post.filename, "curry");
    assert_eq!(post.filepath, "frontend/content/posts/curry.md");
    assert_eq!(post.title, "Curry");
    assert_eq!(post.date, "2024-02-03");
    assert_eq!(post.thumbnail.as_deref(), Some("/photo/c.jpg"));
    assert_eq!(post.menus, vec!["カレー"]);
    assert_eq!(post.genres, vec!["洋食"]);
    assert_eq!(post.body, "店 で食べた");
    assert_eq!(post.alt_texts, vec!["皿"]);
}

#[test]
fn drafts_are_skipped() {
    let content = "+++\ntitle = \"WIP\"\ndraft = true\n+++\nbody";
    assert!(post_from_markdown("posts/wip.md", content).is_none());
    let content = "+++\ntitle = \"Done\"\ndraft = false\n+++\nbody";
    assert!(post_from_markdown("posts/done.md", content).is_some());
}

#[test]
fn missing_metadata_is_empty() {
    let post = post_from_markdown("a/b/.hidden", "no front matter").unwrap();
    assert_eq!(post.filename, ".hidden");
    assert_eq!(post.title, "");
    assert_eq!(post.date, "");
    assert_eq!(post.thumbnail, None);
    assert_eq!(post.body, "no front matter");
    assert!(post_from_markdown("posts/..", "x").is_none());
}

#[test]
fn post_url_wraps_the_name() {
    assert_eq!(post_url("curry"), "/posts/curry/");
}

use rust_app::morphology::MorphologyError;
use rust_app::post::index_tokens;

#[test]
fn posts_are_indexed_with_their_tokens_or_none() {
    let (tokens, text) = index_tokens(Ok(vec!["すもも".to_string(), "も".to_string(), "もも".to_string()]));
    assert_eq!(tokens, vec!["すもも", "も", "もも"]);
    assert_eq!(text, "すもも も もも");
    let (tokens, text) = index_tokens(Err(MorphologyError { message: "failed".to_string() }));
    assert!(tokens.is_empty());
    assert_eq!(text, "");
}
