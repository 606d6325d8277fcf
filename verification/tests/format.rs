//! Formatting as edits: what changes, and that the edits reproduce it.

use fatou_lsp::edits::TextEdit;
use fatou_lsp::format::{
    compute_format_edits, compute_format_range_edits, edits_for_formatted, line_diff_edits,
    lsp_range_to_text_range, RangeFormatted, RangeOutcome,
};
use fatou_lsp::pull_diagnostics::cache_is_current;
use fatou_lsp::text::{LineIndex, Position, PositionEncoding, Range, TextRange};

fn at(line: u32, character: u32) -> Position {
    Position { line, character }
}

fn range(start: Position, end: Position) -> Range {
    Range { start, end }
}

/// A formatter for the sources below: spaces around `=` and none within brackets.
fn formatted(text: &str) -> String {
    let mut out = String::new();
    for line in text.split_inclusive('\n') {
        let body = line.trim_end_matches(['\r', '\n']);
        let spaced = match body.split_once('=') {
            Some((left, right)) if !body.contains('"') || !left.contains('"') => {
                format!("{} = {}", left.trim_end(), right.trim_start())
            }
            _ => body.to_string(),
        };
        let tight = spaced.replace("( ", "(").replace(" )", ")");
        out.push_str(&tight);
        out.push_str(&line[body.len()..]);
    }
    out
}

type Shown = Vec<(Range, String)>;

fn shown(edits: &[TextEdit]) -> Shown {
    edits.iter().map(|e| (e.range, e.new_text.clone())).collect()
}

fn format_edits(text: &str, encoding: PositionEncoding) -> Vec<TextEdit> {
    compute_format_edits(text, Some(formatted(text)), encoding).expect("edits")
}

/// The edits of the statements that a selection touches; every line is one.
fn range_edits(text: &str, selection: Range, encoding: PositionEncoding) -> Vec<TextEdit> {
    let requested = lsp_range_to_text_range(text, selection, encoding);
    let start = text[..requested.start as usize].rfind('\n').map_or(0, |i| i + 1);
    let end = text[requested.end as usize..]
        .find('\n')
        .map_or(text.len(), |i| requested.end as usize + i + 1);
    let outcome = RangeOutcome::Formatted(RangeFormatted {
        range: TextRange { start: start as u32, end: end as u32 },
        text: formatted(&text[start..end]),
    });
    compute_format_range_edits(text, outcome, encoding).expect("edits")
}

fn served<'t>(held: Option<&'t str>, buffer: &'t str) -> &'t str {
    match held {
        Some(held) if cache_is_current(Some(held), buffer) => held,
        _ => buffer,
    }
}

#[test]
fn format_via_db_matches_compute_and_falls_back() {
    let encoding = PositionEncoding::Utf16;
    let buffer = "x=f( 1 )\n";
    let expected = shown(&format_edits(buffer, encoding));
    assert!(!expected.is_empty(), "fixture must require reformatting");
    for held in [Some(buffer), Some("y = 1\n"), None] {
        assert_eq!(shown(&format_edits(served(held, buffer), encoding)), expected);
    }
}

#[test]
fn format_range_via_db_matches_compute_and_falls_back() {
    let encoding = PositionEncoding::Utf16;
    let buffer = "a=1\nx=f( 1 )\nb =2\n";
    // A cursor selection inside the second statement.
    let cursor = range(at(1, 3), at(1, 3));
    let expected = shown(&range_edits(buffer, cursor, encoding));
    assert_eq!(expected.len(), 1, "fixture must require a scoped edit");
    for held in [Some(buffer), Some("y = 1\n"), None] {
        assert_eq!(shown(&range_edits(served(held, buffer), cursor, encoding)), expected);
    }
}

/// Applies `edits` the way a client does, and asserts that they do not overlap.
fn apply(text: &str, edits: &[TextEdit], encoding: PositionEncoding) -> String {
    let line_index = LineIndex::new(text);
    let mut spans: Vec<(usize, usize, &str)> = edits
        .iter()
        .map(|edit| {
            (
                line_index.position_to_byte(edit.range.start, encoding),
                line_index.position_to_byte(edit.range.end, encoding),
                edit.new_text.as_str(),
            )
        })
        .collect();
    spans.sort_by_key(|&(start, ..)| start);
    for pair in spans.windows(2) {
        assert!(pair[0].1 <= pair[1].0, "edits must not overlap: {spans:?}");
    }
    let mut out = text.to_string();
    for &(start, end, new_text) in spans.iter().rev() {
        out.replace_range(start..end, new_text);
    }
    out
}

#[test]
fn format_edits_are_scoped_to_the_lines_that_change() {
    let text = "a = 1\nb = 2\nc=3\nd = 4\ne = 5\n";
    let edits = format_edits(text, PositionEncoding::Utf16);
    assert_eq!(edits.len(), 1, "one changed line is one edit: {edits:?}");
    assert_eq!(
        edits[0].range,
        range(at(2, 0), at(3, 0)),
        "the edit must cover exactly the third line"
    );
    assert_eq!(edits[0].new_text, "c = 3\n");
}

#[test]
fn separated_changes_are_separate_edits() {
    let text = "a=1\nb = 2\nc = 3\nd = 4\ne=5\n";
    let edits = format_edits(text, PositionEncoding::Utf16);
    assert_eq!(edits.len(), 2, "two changed lines are two edits: {edits:?}");
    assert_eq!(edits[0].range, range(at(0, 0), at(1, 0)));
    assert_eq!(edits[0].new_text, "a = 1\n");
    assert_eq!(edits[1].range, range(at(4, 0), at(5, 0)));
    assert_eq!(edits[1].new_text, "e = 5\n");
}

#[test]
fn format_edits_reproduce_the_formatted_document() {
    let cases = [
        "",
        "x = 1\n",
        "x=1\n",
        "x = 1",
        "x=1",
        "a = 1\nb = 2\nc=3\nd = 4\ne = 5\n",
        "a=1\nb=2\nc=3\nd=4\n",
        "a=1\nb = 2\nc = 3\nd = 4\ne=5\n",
        "function f(x)\n  y = 1\n    z=2\n  return y+z\nend\n",
        "s = \"\u{1F600}\"\nt=\"\u{00E9}\"\nu = 3\n",
        "a = 1\r\nb=2\r\nc = 3\r\n",
        "# comment\n\n\n\nx=1\n",
        "f(a,b,c)\ng( 1 )\n",
    ];
    for text in cases {
        for goal in [formatted(text), String::new(), "z = 9\n".to_string(), format!("{text}\n# end\n")] {
            for encoding in [PositionEncoding::Utf8, PositionEncoding::Utf16] {
                let edits = compute_format_edits(text, Some(goal.clone()), encoding).unwrap();
                assert_eq!(
                    apply(text, &edits, encoding),
                    goal,
                    "edits must reproduce the formatted text for {text:?} ({encoding:?})"
                );
            }
        }
    }
}

#[test]
fn wholesale_change_falls_back_to_one_edit() {
    let text = "a=1\nb=2\nc=3\nd=4\ne=5\n";
    let edits = format_edits(text, PositionEncoding::Utf16);
    assert_eq!(edits.len(), 1, "an all-lines change must collapse to one edit: {edits:?}");
    assert_eq!(
        edits[0].range,
        range(at(0, 0), at(5, 0)),
        "the fallback edit must span the whole document"
    );
}

#[test]
fn range_format_edits_are_scoped_to_the_lines_that_change() {
    let text = "a = 1\nb = 2\nc=3\nd = 4\n";
    // A selection spanning all four statements widens to all four.
    let edits = range_edits(text, range(at(0, 0), at(3, 5)), PositionEncoding::Utf16);
    assert_eq!(edits.len(), 1, "one changed line is one edit: {edits:?}");
    assert_eq!(
        edits[0].range,
        range(at(2, 0), at(3, 0)),
        "the edit must cover only the changed line, not the widened span"
    );
    assert_eq!(edits[0].new_text, "c = 3\n");
}

#[test]
fn range_format_edits_reproduce_the_formatted_span() {
    let text = "a=1\nb = 2\nc=3\nd = 4\ne=5\n";
    for encoding in [PositionEncoding::Utf8, PositionEncoding::Utf16] {
        // Widens to the middle three statements, leaving the outer two.
        let edits = range_edits(text, range(at(1, 0), at(3, 5)), encoding);
        assert_eq!(
            apply(text, &edits, encoding),
            "a=1\nb = 2\nc = 3\nd = 4\ne=5\n",
            "only the widened span may change ({encoding:?})"
        );
    }
}

#[test]
fn a_change_of_more_than_half_is_not_sent_as_hunks() {
    let edits = |old: &str, new: &str| {
        let index = LineIndex::new(old);
        line_diff_edits(&index, 0, old, new, PositionEncoding::Utf16).map(|e| shown(&e))
    };
    // One hunk over the whole text, and over more than half of it.
    assert_eq!(edits("a\n", "b\n"), None);
    assert_eq!(edits("a\nb\nc\n", "x\ny\nc\n"), None);
    // Half of it is not more than half.
    let half = edits("a\nb\n", "a\nc\n").expect("edits");
    assert_eq!(half, vec![(range(at(1, 0), at(2, 0)), "c\n".to_string())]);
    // What only inserts replaces nothing.
    let inserted = edits("a\n", "a\nb\n").expect("edits");
    assert_eq!(inserted, vec![(range(at(1, 0), at(1, 0)), "b\n".to_string())]);
}

#[test]
fn edit_end_position_follows_encoding() {
    // U+1F600 is 4 bytes in UTF-8, 2 UTF-16 units.
    let text = "x = \"\u{1F600}\"";
    let end_utf16 =
        edits_for_formatted(text, "y".to_string(), PositionEncoding::Utf16)[0].range.end;
    let end_utf8 = edits_for_formatted(text, "y".to_string(), PositionEncoding::Utf8)[0].range.end;
    assert_eq!(end_utf16, at(0, 8));
    assert_eq!(end_utf8, at(0, 10));
}

#[test]
fn what_the_formatter_rejects_has_no_edits() {
    assert!(compute_format_edits("x = (", None, PositionEncoding::Utf16).is_none());
    assert!(compute_format_range_edits(
        "x = (",
        RangeOutcome::Rejected,
        PositionEncoding::Utf16
    )
    .is_none());
    let nothing = compute_format_range_edits(
        "\n\n",
        RangeOutcome::Nothing,
        PositionEncoding::Utf16,
    );
    assert_eq!(nothing.map(|edits| edits.len()), Some(0));
}
