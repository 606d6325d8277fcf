//! Completion of sequences such as `\alpha`: the scanner and the tables.

use fatou_lsp::completion::{
    codepoints, context_at, fits_the_scanner, is_lone_escape, is_sequence_char, prefixed, Context,
    MAX_SEQUENCE_LEN,
};

const LATEX_SYMBOLS: &[(&str, &str)] = &[
    ("\\_1", "₁"),
    ("\\alpha", "α"),
    ("\\beta", "β"),
    ("\\delta", "δ"),
    ("\\nabla", "∇"),
    ("\\nleqslant", "⩽̸"),
    ("\\nu", "ν"),
];

const EMOJI_SYMBOLS: &[(&str, &str)] = &[("\\:+1:", "👍"), ("\\:smile:", "😄")];

#[test]
fn tables_fit_the_scanner() {
    for table in [LATEX_SYMBOLS, EMOJI_SYMBOLS] {
        assert!(!table.is_empty());
        for window in table.windows(2) {
            assert!(window[0].0 < window[1].0, "unsorted at {:?}", window[0].0);
        }
        for &(key, expansion) in table {
            let rest = key
                .strip_prefix('\\')
                .unwrap_or_else(|| panic!("{key:?} lacks a backslash"));
            assert!(!rest.is_empty(), "{key:?} is a bare backslash");
            assert!(
                rest.chars().all(is_sequence_char),
                "{key:?} has a character the scanner stops at"
            );
            assert!(
                key.len() <= MAX_SEQUENCE_LEN,
                "{key:?} outruns the scan cap"
            );
            assert!(!expansion.is_empty(), "{key:?} expands to nothing");
        }
        assert!(fits_the_scanner(table));
    }
}

#[test]
fn a_table_that_does_not_fit_is_told_apart() {
    assert!(!fits_the_scanner(&[("\\b", "1"), ("\\a", "2")]));
    assert!(!fits_the_scanner(&[("alpha", "α")]));
    assert!(!fits_the_scanner(&[("\\", "x")]));
    assert!(!fits_the_scanner(&[("\\a b", "x")]));
    assert!(!fits_the_scanner(&[("\\a", "")]));
}

#[test]
fn lone_escape_recognition() {
    for escape in ["n", "t", "u", "x", "0", "\\", "\""] {
        assert!(is_lone_escape(escape), "{escape:?} is an escape");
    }
    for other in ["^", "_", ":", "alpha", "nu", "", "nn"] {
        assert!(!is_lone_escape(other), "{other:?} is not a lone escape");
    }
}

#[test]
fn prefix_search_takes_exactly_the_matching_run() {
    let table: &[(&str, &str)] = &[("\\a", "1"), ("\\ab", "2"), ("\\abc", "3"), ("\\b", "4")];
    assert_eq!(prefixed(table, "\\ab").len(), 2);
    assert_eq!(prefixed(table, "\\").len(), 4);
    assert_eq!(prefixed(table, "\\abcd").len(), 0);
    assert_eq!(prefixed(table, "\\z").len(), 0);
}

#[test]
fn codepoints_names_combining_expansions() {
    assert_eq!(codepoints("α"), "U+03B1");
    // `\nleqslant` is a base character plus a combining solidus.
    assert_eq!(codepoints("⩽̸"), "U+2A7D U+0338");
}

#[test]
fn context_detection() {
    assert_eq!(context_at("foo", 3), Context::Value);
    assert_eq!(context_at("\\alph", 5), Context::Latex { start: 0 });
    assert_eq!(context_at("x = \\_1", 7), Context::Latex { start: 4 });
    assert_eq!(context_at("\\", 1), Context::Latex { start: 0 });
    // A spaced left division is not a sequence: the scan stops at the space.
    assert_eq!(context_at("A \\ b", 5), Context::Value);
    // Nor is a run longer than the longest key.
    let long = format!("\\{}", "a".repeat(MAX_SEQUENCE_LEN));
    assert_eq!(context_at(&long, long.len()), Context::Value);
    assert_eq!(context_at("@ti", 3), Context::Macro);
    assert_eq!(
        context_at("Base.", 5),
        Context::Member {
            receiver: vec!["Base".into()],
            macro_member: false,
        }
    );
    assert_eq!(
        context_at("A.B.foo", 7),
        Context::Member {
            receiver: vec!["A".into(), "B".into()],
            macro_member: false,
        }
    );
    assert_eq!(
        context_at("Base.@ti", 8),
        Context::Member {
            receiver: vec!["Base".into()],
            macro_member: true,
        }
    );
}
