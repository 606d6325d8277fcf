//! Positions, the order of texts and paths, and how paths are spelled.

use fatou_lsp::order::{is_path_less, is_text_less};
use fatou_lsp::paths::{
    absolute_spelling, relative_spelling, resolve_target, split_extension, FilePath,
};
use fatou_lsp::strings::{decimal_text, join_with, split_on, trim};
use fatou_lsp::text::{LineIndex, Position, PositionEncoding};

const TEXTS: [&str; 5] = ["", "a", "x = α\n🐈 y\r\n\nend", "\n\n", "line\n"];

fn path(text: &str) -> FilePath {
    FilePath::parse(text).expect("an absolute path")
}

#[test]
fn every_place_of_a_text_has_a_position_that_leads_back() {
    for text in TEXTS {
        let index = LineIndex::new(text);
        for encoding in [PositionEncoding::Utf8, PositionEncoding::Utf16] {
            let mut last = Position { line: 0, character: 0 };
            for offset in (0..=text.len()).filter(|i| text.is_char_boundary(*i)) {
                let position = index.byte_to_position(offset, encoding);
                assert_eq!(index.position_to_byte(position, encoding), offset, "{text:?}");
                assert!((last.line, last.character) <= (position.line, position.character));
                last = position;
            }
        }
    }
}

#[test]
fn a_position_counts_the_units_of_its_encoding() {
    let index = LineIndex::new("x = α\n🐈 y");
    let at = |offset, encoding| {
        let p = index.byte_to_position(offset, encoding);
        (p.line, p.character)
    };
    assert_eq!(at(6, PositionEncoding::Utf8), (0, 6));
    assert_eq!(at(6, PositionEncoding::Utf16), (0, 5));
    assert_eq!(at(11, PositionEncoding::Utf8), (1, 4));
    assert_eq!(at(11, PositionEncoding::Utf16), (1, 2));
}

#[test]
fn a_position_outside_the_text_is_held_to_it() {
    let index = LineIndex::new("ab\ncd");
    let byte = |line, character| {
        index.position_to_byte(Position { line, character }, PositionEncoding::Utf16)
    };
    assert_eq!(byte(0, 99), 2);
    assert_eq!(byte(9, 0), 5);
}

#[test]
fn texts_and_paths_have_the_order_of_their_parts() {
    let texts = ["", "a", "aa", "ab", "b", "α", "🐈"];
    for a in texts {
        for b in texts {
            assert_eq!(is_text_less(a, b), a < b, "{a:?} {b:?}");
        }
    }
    let paths = ["/", "/a", "/a/b", "/a/b.jl", "/a.b", "/b"];
    for a in paths {
        for b in paths {
            let less = std::path::Path::new(a) < std::path::Path::new(b);
            assert_eq!(is_path_less(&path(a), &path(b)), less, "{a} {b}");
        }
    }
}

#[test]
fn a_spelling_leads_to_what_it_spells() {
    let paths = ["/work/src/a.jl", "/work/lib/b.jl", "/work/src", "/c.jl", "/work/src/x/y/z.jl"];
    for from in ["/", "/work", "/work/src", "/elsewhere/deep"] {
        for to in paths {
            let (dir, target) = (path(from), path(to));
            if let Some(spelled) = relative_spelling(&dir, &target) {
                let found = resolve_target(&spelled, Some(&dir)).expect("a path");
                assert!(found.same(&target), "{from} {to} {spelled}");
            } else {
                assert_eq!(from, to);
            }
            let spelled = absolute_spelling(&target).expect("a spelling");
            assert_eq!(spelled, to);
            assert!(resolve_target(&spelled, None).expect("a path").same(&target));
        }
    }
    assert!(resolve_target("a.jl", None).is_none());
}

#[test]
fn a_path_can_be_on_a_drive_or_a_share() {
    let spelled = |path: &FilePath| absolute_spelling(path).expect("a spelling");
    let src = path("c:\\work\\.\\lib\\..\\src");
    assert_eq!(spelled(&src), "C:/work/src");
    assert_eq!(spelled(&path("C:/")), "C:/");
    assert_eq!(spelled(&path("C:/..")), "C:/");
    assert!(path("C:/").parent().is_none());
    assert_eq!(spelled(&path("C:/a").parent().expect("a folder")), "C:/");
    let share = path("\\\\server\\share\\a.jl");
    assert_eq!(spelled(&share), "//server/share/a.jl");
    // Different drives and shares have nothing in common.
    assert!(relative_spelling(&src, &path("D:/work/src/a.jl")).is_none());
    assert!(relative_spelling(&src, &share).is_none());
    assert!(relative_spelling(&src, &path("/work/src/a.jl")).is_none());
    // One drive does.
    let target = path("C:/work/lib/a.jl");
    let way = relative_spelling(&src, &target).expect("a way");
    assert_eq!(way, "../lib/a.jl");
    for text in ["../lib/a.jl", "..\\lib\\a.jl", "/work/lib/a.jl", "c:/work/lib/a.jl"] {
        assert!(resolve_target(text, Some(&src)).expect("a path").same(&target), "{text}");
    }
    let found = resolve_target("//server/share/a.jl", Some(&src)).expect("a path");
    assert!(found.same(&share));
    // Without drives a colon and a backslash are ordinary characters.
    let plain = path("/work");
    let found = resolve_target("C:/a\\b.jl", Some(&plain)).expect("a path");
    assert_eq!(spelled(&found), "/work/C:/a\\b.jl");
    assert_eq!(spelled(&path("//server/share")), "/server/share");
}

#[test]
fn an_extension_follows_the_last_dot() {
    let split = |name: &str| split_extension(name);
    assert_eq!(split("a.jl"), ("a".to_string(), Some("jl".to_string())));
    assert_eq!(split("a.b.jl"), ("a.b".to_string(), Some("jl".to_string())));
    assert_eq!(split("a"), ("a".to_string(), None));
    assert_eq!(split(".jl"), (".jl".to_string(), None));
}

#[test]
fn texts_are_cut_joined_and_trimmed() {
    let parts = split_on("a,b,,c", ',');
    assert_eq!(parts, ["a", "b", "", "c"]);
    assert_eq!(join_with(&parts, ","), "a,b,,c");
    assert_eq!(trim("\u{2003} x y \n"), "x y");
    assert_eq!(decimal_text(0), "0");
    assert_eq!(decimal_text(u64::MAX), u64::MAX.to_string());
}
