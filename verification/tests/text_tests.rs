use std::path::Path;

use rust_app::names::sort_names;
use rust_app::paths::{content_type_for, image_kind, is_image_file, is_safe_filename, path_file_stem, ImageKind};
use rust_app::text::{decimal_string, join_strings, join_words, str_lt, to_chars, trim_str};

fn std_image(name: &str) -> bool {
    let ext = Path::new(name)
        .extension()
        .and_then(|e| e.to_str())
        .unwrap_or("")
        .to_lowercase();
    ["jpg", "jpeg", "png"].contains(&ext.as_str())
}

fn names() -> Vec<&'static str> {
    vec![
        "a.jpg", "A.JPG", "b.JpEg", "c.png", "d.PNG", "e.gif", "jpg", ".jpg", ".hidden.png", "f.jpg.txt",
        "g.txt.jpg", "h.", "..", ".", "", "dir/i.jpg", "dir/j.jpg/", "dir/k.jpg/.", "dir/..", "./l.png",
        "m.jpeg ", "写真.JPG", "n.\u{212A}pg", "o.jpg/..", "/", "//p.png//", "q..png",
    ]
}

#[test]
fn image_files_are_recognised_as_path_extension_says() {
    for n in names() {
        assert_eq!(is_image_file(n), std_image(n), "{:?}", n);
    }
    assert_eq!(image_kind("x.JPEG"), Some(ImageKind::Jpeg));
    assert_eq!(image_kind("x.png"), Some(ImageKind::Png));
    assert_eq!(image_kind("x.bmp"), None);
}

#[test]
fn file_stems_are_those_of_path() {
    for n in names() {
        let expected = Path::new(n).file_stem().map(|s| s.to_string_lossy().to_string());
        assert_eq!(path_file_stem(n), expected, "{:?}", n);
    }
}

#[test]
fn content_types_follow_the_extension() {
    assert_eq!(content_type_for("a.jpg"), "image/jpeg");
    assert_eq!(content_type_for("a.JPEG"), "image/jpeg");
    assert_eq!(content_type_for("a.Png"), "image/png");
    assert_eq!(content_type_for("a.gif"), "application/octet-stream");
    assert_eq!(content_type_for("noext"), "application/octet-stream");
}

#[test]
fn unsafe_filenames_are_refused() {
    assert!(is_safe_filename("photo.jpg"));
    assert!(is_safe_filename("a.b.c"));
    assert!(!is_safe_filename("../etc/passwd"));
    assert!(!is_safe_filename("a..b"));
    assert!(!is_safe_filename("dir/a.jpg"));
    assert!(!is_safe_filename("dir\\a.jpg"));
    assert!(is_safe_filename(""));
}

#[test]
fn trimming_is_that_of_str() {
    for s in ["", "  a b  ", "\u{3000}全角\u{3000}", "\t\r\n x \u{85}", "\u{200B}zero width\u{200B}", "   "] {
        assert_eq!(trim_str(s), s.trim(), "{:?}", s);
    }
}

#[test]
fn decimals_are_written_as_format_writes_them() {
    for n in [0usize, 7, 10, 99, 100, 12345, usize::MAX] {
        assert_eq!(decimal_string(n), format!("{}", n));
    }
}

#[test]
fn joining_puts_the_separator_between_parts() {
    let parts: Vec<String> = vec!["a".into(), "".into(), "c".into()];
    assert_eq!(join_strings(&parts, ", "), "a, , c");
    assert_eq!(join_words(&parts), "a  c");
    assert_eq!(join_words(&Vec::new()), "");
    assert_eq!(to_chars("ふく"), vec!['ふ', 'く']);
}

#[test]
fn order_is_that_of_string() {
    let words = ["", "a", "b", "ab", "aa", "B", "é", "日本", "日", "z", "\u{10000}", "\u{FFFF}"];
    for a in words {
        for b in words {
            assert_eq!(str_lt(a, b), a < b, "{:?} < {:?}", a, b);
        }
    }
    let mut expected: Vec<String> = words.iter().map(|s| s.to_string()).collect();
    expected.push("a".to_string());
    let sorted = sort_names(expected.clone());
    expected.sort();
    assert_eq!(sorted, expected);
}
