//! Completion: what could stand at the cursor, by the text just before it.

use vstd::prelude::*;
use vstd::slice::slice_subrange;

use crate::chars::{char_is_alphanumeric, char_is_uppercase};
use crate::documentation::{
    anchor_labels, docs_wf, find_ref, labels_in, law_labels_are_offered_once, ref_under, DocText,
};
use crate::edits::{TextEdit, TextEditView};
use crate::index::{
    find_named, first_named, has_name, holds_name, lemma_first_named, lemma_nothing_named,
    name_index, nothing_named, package_of, resolve_submodule, submodule, ConstDef, FunctionGroup,
    Library, MacroDef, ModuleIndex, Named, TypeDef,
};
use crate::order::{is_text_less, lemma_text_less_transitive, text_less};
use crate::render::{
    binding_detail, function_detail, function_line, kind_label, method_text, type_detail,
    type_line,
};
use crate::search::{
    first_found, kept, lemma_first_found_stays, lemma_first_found_step, lemma_first_index,
    lemma_kept_from, lemma_kept_holds, lemma_kept_step,
};
use crate::selection::start_token;
use crate::semantic::{BindingKind, SemanticModel};
use crate::strings::{
    byte_len, cat, chars_of, copy_texts, join_with, law_parts_stand_whole,
    lemma_byte_len_monotone, separated,
    starts_with, text_between,
};
use crate::symbols::token_at;
use crate::text::{
    char_bytes, char_index, fits, lemma_char_index, lemma_newlines_step, lemma_offset_bounded,
    offset_at, range_at, LineIndex, Position, PositionEncoding, Range,
};
use crate::tree::{
    ancestors, lemma_ancestors_bounded, lemma_ends_bounded, well_placed, Element, SyntaxKind,
    SyntaxTree,
};

verus! {

/// What the cursor completes.
#[derive(Debug, PartialEq, Eq)]
pub enum Context {
    Value,
    Macro,
    /// A member of the module that `receiver` names; a macro of it where a sigil
    /// stands before the cursor.
    Member { receiver: Vec<String>, macro_member: bool },
    /// A sequence that stands for a character; its backslash is at byte `start`.
    Latex { start: usize },
}

/// What a [`Context`] says.
pub enum ContextView {
    Value,
    Macro,
    Member { receiver: Seq<Seq<char>>, macro_member: bool },
    Latex { start: nat },
}

impl DeepView for Context {
    type V = ContextView;

    open spec fn deep_view(&self) -> ContextView {
        match *self {
            Context::Value => ContextView::Value,
            Context::Macro => ContextView::Macro,
            Context::Member { receiver, macro_member } => ContextView::Member {
                receiver: receiver.deep_view(),
                macro_member,
            },
            Context::Latex { start } => ContextView::Latex { start: start as nat },
        }
    }
}

/// The longest sequence in bytes.
pub const MAX_SEQUENCE_LEN: usize = 43;

/// Whether a character can stand in a name.
pub open spec fn ident_char(c: char) -> bool {
    char_is_alphanumeric(c) || c == '_' || c == '!'
}

/// Whether a character can stand in a name.
pub fn is_ident_char(c: char) -> (r: bool)
    ensures
        r == ident_char(c),
{
    c.is_alphanumeric() || c == '_' || c == '!'
}

/// Where the name begins in which a text ends; the text's end where it ends in
/// none.
pub open spec fn ident_start(s: Seq<char>) -> int
    decreases s.len(),
{
    if s.len() > 0 && ident_char(s.last()) {
        ident_start(s.drop_last())
    } else {
        s.len() as int
    }
}

proof fn lemma_ident_start(s: Seq<char>)
    ensures
        0 <= ident_start(s) <= s.len(),
    decreases s.len(),
{
    if s.len() > 0 && ident_char(s.last()) {
        lemma_ident_start(s.drop_last());
    }
}

/// The name in which `prefix` ends, and what stands before it.
pub fn take_ident_back(prefix: &str) -> (r: (&str, &str))
    ensures
        r.0@ == prefix@.skip(ident_start(prefix@)),
        r.1@ == prefix@.take(ident_start(prefix@)),
{
    let chars = chars_of(prefix);
    let ghost s = prefix@;
    let mut start: usize = chars.len();
    proof {
        assert(s.take(s.len() as int) =~= s);
    }
    while start > 0 && is_ident_char(chars[start - 1])
        invariant
            s == prefix@,
            chars@ == s,
            start <= s.len(),
            ident_start(s) == ident_start(s.take(start as int)),
        decreases start,
    {
        proof {
            assert(s.take(start as int).drop_last() =~= s.take(start - 1));
        }
        start = start - 1;
    }
    let ident = prefix.substring_char(start, chars.len());
    let before = prefix.substring_char(0, start);
    proof {
        assert(ident@ =~= s.skip(start as int));
        assert(before@ =~= s.take(start as int));
    }
    (ident, before)
}

/// The names, with dots between, in which a text ends.
pub open spec fn dotted(s: Seq<char>) -> Seq<Seq<char>>
    decreases s.len(),
    via dotted_decreases
{
    let start = ident_start(s);
    if start >= s.len() {
        Seq::empty()
    } else {
        let rest = s.take(start);
        if rest.len() > 0 && rest.last() == '.' {
            dotted(rest.drop_last()).push(s.skip(start))
        } else {
            seq![s.skip(start)]
        }
    }
}

#[via_fn]
proof fn dotted_decreases(s: Seq<char>) {
    lemma_ident_start(s);
}

/// The names, with dots between, in which `s` ends: `A.B` gives `A` and `B`.
pub fn scan_dotted(s: &str) -> (r: Vec<String>)
    ensures
        r.deep_view() == dotted(s@),
    decreases s@.len(),
{
    proof {
        lemma_ident_start(s@);
    }
    let (ident, rest) = take_ident_back(s);
    if ident.is_empty() {
        let none: Vec<String> = Vec::new();
        proof {
            assert(none.deep_view() =~= Seq::<Seq<char>>::empty());
        }
        return none;
    }
    let chars = chars_of(rest);
    let count = chars.len();
    if count > 0 && chars[count - 1] == '.' {
        let before = rest.substring_char(0, count - 1);
        proof {
            assert(before@ =~= rest@.drop_last());
        }
        let mut names = scan_dotted(before);
        let ghost held = names.deep_view();
        names.push(ident.to_owned());
        proof {
            assert(names.deep_view() =~= held.push(ident@));
        }
        names
    } else {
        let names = vec![ident.to_owned()];
        proof {
            assert(names.deep_view() =~= seq![ident@]);
        }
        names
    }
}

/// Whether a character is an ASCII letter or digit.
pub open spec fn ascii_alphanumeric(c: char) -> bool {
    ||| '0' <= c <= '9'
    ||| 'A' <= c <= 'Z'
    ||| 'a' <= c <= 'z'
}

/// Whether a character can stand in a sequence behind its backslash.
pub open spec fn sequence_char(c: char) -> bool {
    ||| ascii_alphanumeric(c)
    ||| c == '_'
    ||| c == '^'
    ||| c == '/'
    ||| c == '+'
    ||| c == '-'
    ||| c == '('
    ||| c == ')'
    ||| c == '!'
    ||| c == '='
    ||| c == '<'
    ||| c == '>'
    ||| c == ':'
}

/// Whether a character can stand in a sequence behind its backslash.
pub fn is_sequence_char(c: char) -> (r: bool)
    ensures
        r == sequence_char(c),
{
    ('0' <= c && c <= '9') || ('A' <= c && c <= 'Z') || ('a' <= c && c <= 'z') || c == '_' || c
        == '^' || c == '/' || c == '+' || c == '-' || c == '(' || c == ')' || c == '!' || c == '='
        || c == '<' || c == '>' || c == ':'
}

/// The backslash of the sequence in which a text ends, sought from character `i`
/// back: no further than a sequence is long, and across its characters alone.
pub open spec fn backslash_before(s: Seq<char>, i: int) -> Option<int>
    decreases i,
{
    if i <= 0 {
        None
    } else if byte_len(s) - byte_len(s.take(i - 1)) > MAX_SEQUENCE_LEN {
        None
    } else if s[i - 1] == '\\' {
        Some(i - 1)
    } else if !sequence_char(s[i - 1]) {
        None
    } else {
        backslash_before(s, i - 1)
    }
}

/// The byte at which the sequence begins in which a text ends.
pub open spec fn sequence_at(s: Seq<char>) -> Option<nat> {
    match backslash_before(s, s.len() as int) {
        Some(i) => Some(byte_len(s.take(i))),
        None => None,
    }
}

/// The byte of the backslash that opens the sequence in which `prefix` ends.
pub fn sequence_start(prefix: &str) -> (r: Option<usize>)
    ensures
        match r {
            Some(start) => sequence_at(prefix@) == Some(start as nat),
            None => sequence_at(prefix@) is None,
        },
{
    let ghost s = prefix@;
    let chars = chars_of(prefix);
    let total = crate::strings::byte_length(prefix);
    let mut at: usize = total;
    let mut i: usize = chars.len();
    proof {
        assert(s.take(s.len() as int) =~= s);
    }
    while i > 0
        invariant
            s == prefix@,
            chars@ == s,
            i <= s.len(),
            total == byte_len(s),
            at == byte_len(s.take(i as int)),
            at <= total,
            backslash_before(s, s.len() as int) == backslash_before(s, i as int),
        decreases i,
    {
        let c = chars[i - 1];
        proof {
            lemma_newlines_step(s, i - 1);
        }
        at = at - char_bytes(c);
        if total - at > MAX_SEQUENCE_LEN {
            return None;
        }
        if c == '\\' {
            return Some(at);
        }
        if !is_sequence_char(c) {
            return None;
        }
        i = i - 1;
    }
    None
}

/// What a cursor completes, given the text before it.
pub open spec fn context_of(prefix: Seq<char>) -> ContextView {
    match sequence_at(prefix) {
        Some(start) => ContextView::Latex { start },
        None => {
            let before = prefix.take(ident_start(prefix));
            let sigil = before.len() > 0 && before.last() == '@';
            let rest = if sigil {
                before.drop_last()
            } else {
                before
            };
            let receiver = if rest.len() > 0 && rest.last() == '.' {
                dotted(rest.drop_last())
            } else {
                Seq::empty()
            };
            if receiver.len() > 0 {
                ContextView::Member { receiver, macro_member: sigil }
            } else if sigil {
                ContextView::Macro
            } else {
                ContextView::Value
            }
        },
    }
}

/// What a cursor at byte `offset` of `text` completes.
pub fn context_at(text: &str, offset: usize) -> (r: Context)
    requires
        fits(text@),
    ensures
        r.deep_view() == context_of(text@.take(char_index(text@, offset as int))),
{
    let line_index = LineIndex::new(text);
    let (end, _) = line_index.char_at(offset);
    let prefix = text.substring_char(0, end);
    proof {
        assert(prefix@ =~= text@.take(end as int));
        lemma_ident_start(prefix@);
    }
    if let Some(start) = sequence_start(prefix) {
        return Context::Latex { start };
    }
    let (_, before) = take_ident_back(prefix);
    let chars = chars_of(before);
    let count = chars.len();
    let sigil = count > 0 && chars[count - 1] == '@';
    let left = if sigil {
        count - 1
    } else {
        count
    };
    let ghost rest = if sigil {
        before@.drop_last()
    } else {
        before@
    };
    proof {
        assert(rest =~= before@.take(left as int));
    }
    if left > 0 && chars[left - 1] == '.' {
        let owner = before.substring_char(0, left - 1);
        proof {
            assert(owner@ =~= rest.drop_last());
            assert(rest.last() == before@[left - 1]);
        }
        let receiver = scan_dotted(owner);
        if receiver.len() > 0 {
            return Context::Member { receiver, macro_member: sigil };
        }
    } else {
        proof {
            if rest.len() > 0 {
                assert(rest.last() == before@[left - 1]);
            }
        }
    }
    if sigil {
        Context::Macro
    } else {
        Context::Value
    }
}

/// Whether the keys of a table ascend.
pub open spec fn keys_ascend(table: Seq<(&str, &str)>) -> bool {
    forall|i: int, j: int|
        0 <= i < j < table.len() ==> text_less((#[trigger] table[i]).0@, (#[trigger] table[j]).0@)
}

/// What begins with a prefix does not come before it.
proof fn lemma_prefix_not_less(key: Seq<char>, prefix: Seq<char>)
    requires
        prefix.is_prefix_of(key),
    ensures
        !text_less(key, prefix),
    decreases prefix.len(),
{
    if prefix.len() > 0 {
        assert(key[0] == prefix[0]) by {
            assert(key.subrange(0, prefix.len() as int)[0] == prefix[0]);
        }
        assert(prefix.drop_first().is_prefix_of(key.drop_first())) by {
            assert(key.drop_first().subrange(0, prefix.len() - 1) =~= key.subrange(
                0,
                prefix.len() as int,
            ).drop_first());
        }
        lemma_prefix_not_less(key.drop_first(), prefix.drop_first());
    }
}

/// What lies between a prefix and a text that begins with it begins with it too.
proof fn lemma_prefix_between(prefix: Seq<char>, a: Seq<char>, b: Seq<char>)
    requires
        !text_less(a, prefix),
        text_less(a, b),
        prefix.is_prefix_of(b),
    ensures
        prefix.is_prefix_of(a),
    decreases prefix.len(),
{
    if prefix.len() > 0 {
        assert(b[0] == prefix[0]) by {
            assert(b.subrange(0, prefix.len() as int)[0] == prefix[0]);
        }
        assert(a.len() > 0);
        assert(a[0] == prefix[0]) by {
            if a[0] != prefix[0] {
                assert(!((a[0] as u32) < (prefix[0] as u32)));
                assert((a[0] as u32) < (b[0] as u32));
            }
        }
        let p = prefix.drop_first();
        let x = a.drop_first();
        let y = b.drop_first();
        assert(p.is_prefix_of(y)) by {
            assert(y.subrange(0, p.len() as int) =~= b.subrange(
                0,
                prefix.len() as int,
            ).drop_first());
        }
        lemma_prefix_between(p, x, y);
        assert(a.subrange(0, prefix.len() as int) =~= prefix) by {
            assert(x.subrange(0, p.len() as int) == p);
            assert forall|i: int| 0 <= i < prefix.len() implies a[i] == prefix[i] by {
                if i > 0 {
                    assert(x[i - 1] == p[i - 1]) by {
                        assert(x.subrange(0, p.len() as int)[i - 1] == p[i - 1]);
                    }
                }
            }
        }
    } else {
        assert(a.subrange(0, 0) =~= prefix);
    }
}

/// Whether a stretch of a table holds exactly the entries whose key begins with a
/// prefix.
pub open spec fn is_matching_run(
    table: Seq<(&str, &str)>,
    prefix: Seq<char>,
    start: int,
    end: int,
) -> bool {
    &&& 0 <= start <= end <= table.len()
    &&& forall|i: int|
        0 <= i < table.len() ==> (prefix.is_prefix_of((#[trigger] table[i]).0@) <==> start <= i
            < end)
}

/// The entries of a sorted table whose key begins with `prefix`: exactly these, in
/// order.
pub fn prefixed<'a>(table: &'a [(&'a str, &'a str)], prefix: &str) -> (r: &'a [(&'a str, &'a str)])
    requires
        keys_ascend(table@),
    ensures
        exists|start: int, end: int|
            #![trigger table@.subrange(start, end)]
            is_matching_run(table@, prefix@, start, end) && r@ == table@.subrange(start, end),
{
    let ghost t = table@;
    let ghost p = prefix@;
    let mut low: usize = 0;
    let mut high: usize = table.len();
    while low < high
        invariant
            t == table@,
            p == prefix@,
            keys_ascend(t),
            low <= high <= t.len(),
            forall|i: int| 0 <= i < low ==> text_less((#[trigger] t[i]).0@, p),
            forall|i: int| high <= i < t.len() ==> !text_less((#[trigger] t[i]).0@, p),
        decreases high - low,
    {
        let middle: usize = low + (high - low) / 2;
        let less = is_text_less(table[middle].0, prefix);
        proof {
            let m = t[middle as int].0@;
            if less {
                assert forall|i: int| 0 <= i < middle + 1 implies text_less(
                    (#[trigger] t[i]).0@,
                    p,
                ) by {
                    if i < middle {
                        assert(text_less(t[i].0@, m));
                        lemma_text_less_transitive(t[i].0@, m, p);
                    }
                }
            } else {
                assert forall|i: int| middle <= i < t.len() implies !text_less(
                    (#[trigger] t[i]).0@,
                    p,
                ) by {
                    if i > middle && text_less(t[i].0@, p) {
                        assert(text_less(m, t[i].0@));
                        lemma_text_less_transitive(m, t[i].0@, p);
                    }
                }
            }
        }
        if less {
            low = middle + 1;
        } else {
            high = middle;
        }
    }
    let mut end: usize = low;
    while end < table.len() && starts_with(table[end].0, prefix)
        invariant
            t == table@,
            p == prefix@,
            low <= end <= t.len(),
            forall|i: int| low <= i < end ==> p.is_prefix_of((#[trigger] t[i]).0@),
        decreases t.len() - end,
    {
        end = end + 1;
    }
    proof {
        assert forall|i: int| 0 <= i < t.len() implies (p.is_prefix_of((#[trigger] t[i]).0@)
            <==> low <= i < end) by {
            if p.is_prefix_of(t[i].0@) {
                lemma_prefix_not_less(t[i].0@, p);
                if i >= end {
                    if i > end {
                        assert(text_less(t[end as int].0@, t[i].0@));
                        lemma_prefix_between(p, t[end as int].0@, t[i].0@);
                    }
                }
            }
        }
        assert(is_matching_run(t, p, low as int, end as int));
    }
    slice_subrange(table, low, end)
}

/// Whether a table of sequences is fit to be searched: its keys ascend, each is a
/// backslash and sequence characters no longer than a sequence may be, and each
/// stands for something.
pub open spec fn table_fits(table: Seq<(&str, &str)>) -> bool {
    &&& table.len() > 0
    &&& keys_ascend(table)
    &&& forall|i: int| 0 <= i < table.len() ==> entry_fits(#[trigger] table[i])
}

/// Whether an entry is fit to be found by the search back from the cursor.
pub open spec fn entry_fits(entry: (&str, &str)) -> bool {
    let key = entry.0@;
    &&& key.len() > 1
    &&& key[0] == '\\'
    &&& forall|i: int| 1 <= i < key.len() ==> sequence_char(#[trigger] key[i])
    &&& byte_len(key) <= MAX_SEQUENCE_LEN
    &&& entry.1@.len() > 0
}

/// Whether `table` is fit to be searched.
pub fn fits_the_scanner(table: &[(&str, &str)]) -> (r: bool)
    ensures
        r == table_fits(table@),
{
    let ghost t = table@;
    if table.len() == 0 {
        return false;
    }
    let mut i: usize = 0;
    while i < table.len()
        invariant
            t == table@,
            i <= t.len(),
            forall|a: int, b: int|
                0 <= a < b < i ==> text_less((#[trigger] t[a]).0@, (#[trigger] t[b]).0@),
            forall|k: int| 0 <= k < i ==> entry_fits(#[trigger] t[k]),
        decreases t.len() - i,
    {
        if i > 0 && !is_text_less(table[i - 1].0, table[i].0) {
            proof {
                if keys_ascend(t) {
                    assert(text_less(t[i - 1].0@, t[i as int].0@));
                }
            }
            return false;
        }
        let key = chars_of(table[i].0);
        if key.len() < 2 || key[0] != '\\' || table[i].1.is_empty()
            || crate::strings::byte_length(table[i].0) > MAX_SEQUENCE_LEN {
            proof {
                assert(!entry_fits(t[i as int]));
            }
            return false;
        }
        let mut k: usize = 1;
        while k < key.len()
            invariant
                t == table@,
                key@ == t[i as int].0@,
                i < t.len(),
                1 <= k <= key.len(),
                forall|j: int| 1 <= j < k ==> sequence_char(#[trigger] key@[j]),
            decreases key.len() - k,
        {
            if !is_sequence_char(key[k]) {
                proof {
                    assert(!sequence_char(t[i as int].0@[k as int]));
                    assert(!entry_fits(t[i as int]));
                }
                return false;
            }
            k = k + 1;
        }
        proof {
            assert forall|a: int, b: int| 0 <= a < b < i + 1 implies text_less(
                (#[trigger] t[a]).0@,
                (#[trigger] t[b]).0@,
            ) by {
                if b == i && a < i - 1 {
                    lemma_text_less_transitive(t[a].0@, t[i - 1].0@, t[i as int].0@);
                }
            }
        }
        i = i + 1;
    }
    true
}

/// Every key of a table that fits is found by the search back from its end: typed
/// in full behind any text, it is the sequence that the text ends in.
pub proof fn law_keys_are_reachable(before: Seq<char>, entry: (&str, &str))
    requires
        entry_fits(entry),
    ensures
        sequence_at(before + entry.0@) == Some(byte_len(before)),
{
    let key = entry.0@;
    let s = before + key;
    assert(s.take(s.len() as int) =~= s);
    lemma_backslash_found(before, key, s.len() as int);
    assert(s.take(before.len() as int) =~= before);
}

proof fn lemma_backslash_found(before: Seq<char>, key: Seq<char>, i: int)
    requires
        key.len() > 1,
        key[0] == '\\',
        forall|i: int| 1 <= i < key.len() ==> sequence_char(#[trigger] key[i]),
        byte_len(key) <= MAX_SEQUENCE_LEN,
        before.len() < i <= before.len() + key.len(),
    ensures
        backslash_before(before + key, i) == Some(before.len() as int),
    decreases i,
{
    let s = before + key;
    let n = before.len() as int;
    lemma_byte_len_monotone(s, n, i - 1);
    assert(s.take(n) =~= before);
    crate::strings::lemma_byte_len_concat(before, key);
    assert(s[i - 1] == key[i - 1 - n]);
    if i - 1 > n {
        assert(s[i - 1] != '\\');
        lemma_backslash_found(before, key, i - 1);
    }
}

/// The upper-case hexadecimal digit of a value below sixteen.
pub open spec fn upper_digit(n: int) -> char {
    if n < 10 {
        (('0' as u32) + n) as char
    } else {
        (('A' as u32) + (n - 10)) as char
    }
}

/// The last `width` hexadecimal digits of a number, in upper case.
pub open spec fn upper_digits(n: nat, width: nat) -> Seq<char>
    decreases width,
{
    if width == 0 {
        Seq::empty()
    } else {
        upper_digits(n / 16, (width - 1) as nat).push(upper_digit((n % 16) as int))
    }
}

/// A code point: `U+` and its digits, at least four.
pub open spec fn code_point(c: char) -> Seq<char> {
    let n = c as u32;
    "U+"@ + upper_digits(
        n as nat,
        if n < 0x10000 {
            4
        } else if n < 0x100000 {
            5
        } else {
            6
        },
    )
}

fn upper_char(n: u32) -> (r: char)
    requires
        n < 16,
    ensures
        r == upper_digit(n as int),
{
    match n {
        0 => '0',
        1 => '1',
        2 => '2',
        3 => '3',
        4 => '4',
        5 => '5',
        6 => '6',
        7 => '7',
        8 => '8',
        9 => '9',
        10 => 'A',
        11 => 'B',
        12 => 'C',
        13 => 'D',
        14 => 'E',
        _ => 'F',
    }
}

fn upper_hex(n: u32, width: u32) -> (r: String)
    ensures
        r@ == upper_digits(n as nat, width as nat),
    decreases width,
{
    if width == 0 {
        String::new()
    } else {
        let mut out = upper_hex(n / 16, width - 1);
        out.push(upper_char(n % 16));
        out
    }
}

/// The code points of `s`, with spaces between.
pub fn codepoints(s: &str) -> (r: String)
    ensures
        r@ == separated(Seq::new(s@.len(), |i: int| code_point(s@[i])), " "@),
{
    let chars = chars_of(s);
    let mut parts: Vec<String> = Vec::new();
    let mut i: usize = 0;
    while i < chars.len()
        invariant
            chars@ == s@,
            i <= chars.len(),
            parts.len() == i,
            forall|k: int| 0 <= k < i ==> #[trigger] parts@[k]@ == code_point(s@[k]),
        decreases chars.len() - i,
    {
        let n = chars[i] as u32;
        let width: u32 = if n < 0x10000 {
            4
        } else if n < 0x100000 {
            5
        } else {
            6
        };
        let digits = upper_hex(n, width);
        parts.push(cat("U+", digits.as_str()));
        i = i + 1;
    }
    proof {
        assert(parts.deep_view() =~= Seq::new(s@.len(), |i: int| code_point(s@[i])));
    }
    join_with(&parts, " ")
}

/// Whether a character behind a backslash is an escape of its own.
pub open spec fn escape_char(c: char) -> bool {
    ||| '0' <= c <= '9'
    ||| c == 'a'
    ||| c == 'b'
    ||| c == 'e'
    ||| c == 'f'
    ||| c == 'n'
    ||| c == 'r'
    ||| c == 't'
    ||| c == 'v'
    ||| c == '\\'
    ||| c == '\''
    ||| c == '"'
    ||| c == '?'
    ||| c == 'x'
    ||| c == 'u'
    ||| c == 'U'
}

/// Whether `sequence`, behind a backslash, is one escape of a string literal.
pub fn is_lone_escape(sequence: &str) -> (r: bool)
    ensures
        r == (sequence@.len() == 1 && escape_char(sequence@[0])),
{
    let chars = chars_of(sequence);
    if chars.len() != 1 {
        return false;
    }
    let c = chars[0];
    ('0' <= c && c <= '9') || c == 'a' || c == 'b' || c == 'e' || c == 'f' || c == 'n' || c == 'r'
        || c == 't' || c == 'v' || c == '\\' || c == '\'' || c == '"' || c == '?' || c == 'x' || c
        == 'u' || c == 'U'
}

/// What kind of literal the cursor is in.
#[derive(Clone, Copy, Debug, PartialEq, Eq, Structural)]
pub enum StringContext {
    /// None: a backslash is no escape.
    Code,
    /// A plain string, where a backslash may be one.
    Plain,
    /// A string macro or a command, whose backslashes are its own.
    Verbatim,
}

/// Whether one of the elements directly under `node` before `upto` is a prefix.
pub open spec fn prefix_before(t: Seq<Element>, node: int, upto: int) -> bool
    decreases upto,
{
    if upto <= node + 1 || upto <= 0 {
        false
    } else {
        (t[upto - 1].parent == node && t[upto - 1].kind == SyntaxKind::STRING_PREFIX)
            || prefix_before(t, node, upto - 1)
    }
}

/// What kind of literal a node is.
pub open spec fn literal_kind(t: Seq<Element>) -> spec_fn(usize) -> Option<StringContext> {
    |node: usize|
        match t[node as int].kind {
            SyntaxKind::CMD_LITERAL => Some(StringContext::Verbatim),
            SyntaxKind::STRING_LITERAL => if prefix_before(
                t,
                node as int,
                t[node as int].end as int,
            ) {
                Some(StringContext::Verbatim)
            } else {
                Some(StringContext::Plain)
            },
            _ => None,
        }
}

/// What kind of literal an offset is in: the innermost around it.
pub open spec fn string_context(t: Seq<Element>, offset: u32) -> StringContext {
    match start_token(t, offset) {
        Some(token) => match first_found(
            ancestors(t, t[token as int].parent),
            literal_kind(t),
        ) {
            Some(context) => context,
            None => StringContext::Code,
        },
        None => StringContext::Code,
    }
}

fn has_prefix(tree: &SyntaxTree, node: usize) -> (r: bool)
    requires
        tree.wf(),
        node < tree.elements.len(),
    ensures
        r == prefix_before(tree@, node as int, tree@[node as int].end as int),
{
    proof {
        lemma_ends_bounded(tree@, node as int);
    }
    let mut i: usize = tree.elements[node].end;
    while i > node + 1
        invariant
            node < tree.elements.len(),
            i <= tree.elements.len(),
            prefix_before(tree@, node as int, tree@[node as int].end as int) == prefix_before(
                tree@,
                node as int,
                i as int,
            ),
        decreases i,
    {
        let e = tree.elements[i - 1];
        let prefix = match e.kind {
            SyntaxKind::STRING_PREFIX => true,
            _ => false,
        };
        if e.parent == node && prefix {
            return true;
        }
        i = i - 1;
    }
    false
}

/// What kind of literal `offset` is in.
pub fn string_context_at(tree: &SyntaxTree, offset: u32) -> (r: StringContext)
    requires
        tree.wf(),
    ensures
        r == string_context(tree@, offset),
{
    let token = match token_at(tree, offset) {
        Some(token) => token,
        None => {
            return StringContext::Code;
        },
    };
    let ghost t = tree@;
    proof {
        assert(token > 0);
        assert(well_placed(t, token as int));
    }
    let parent = tree.elements[token].parent;
    let nodes = tree.ancestors(parent);
    let ghost find = literal_kind(t);
    let mut i: usize = 0;
    proof {
        lemma_ancestors_bounded(t, parent);
        assert(nodes@.take(0) =~= Seq::<usize>::empty());
    }
    while i < nodes.len()
        invariant
            tree.wf(),
            t == tree@,
            find == literal_kind(t),
            i <= nodes.len(),
            forall|k: int| 0 <= k < nodes.len() ==> #[trigger] nodes@[k] < t.len(),
            first_found(nodes@.take(i as int), find) is None,
            string_context(t, offset) == match first_found(nodes@, find) {
                Some(context) => context,
                None => StringContext::Code,
            },
        decreases nodes.len() - i,
    {
        proof {
            lemma_first_found_step(nodes@, find, i as int);
        }
        let node = nodes[i];
        match tree.elements[node].kind {
            SyntaxKind::CMD_LITERAL => {
                proof {
                    lemma_first_found_stays(nodes@, find, i + 1);
                }
                return StringContext::Verbatim;
            },
            SyntaxKind::STRING_LITERAL => {
                proof {
                    lemma_first_found_stays(nodes@, find, i + 1);
                }
                return if has_prefix(tree, node) {
                    StringContext::Verbatim
                } else {
                    StringContext::Plain
                };
            },
            _ => {},
        }
        i = i + 1;
    }
    proof {
        assert(nodes@.take(i as int) =~= nodes@);
    }
    StringContext::Code
}

/// What kind of thing an item offers.
#[derive(Clone, Copy, Debug, PartialEq, Eq, Structural)]
pub enum CompletionItemKind {
    Text,
    Function,
    Variable,
    Field,
    Class,
    Module,
    Constant,
    Keyword,
    TypeParameter,
    Reference,
}

/// Where the details of an item are to be looked up: a module and a name.
#[derive(Debug)]
pub struct ResolveData {
    pub module: Vec<String>,
    pub name: String,
}

/// What a [`ResolveData`] says.
pub struct ResolveView {
    pub module: Seq<Seq<char>>,
    pub name: Seq<char>,
}

impl DeepView for ResolveData {
    type V = ResolveView;

    open spec fn deep_view(&self) -> ResolveView {
        ResolveView { module: self.module.deep_view(), name: self.name@ }
    }
}

/// Something that could stand at the cursor.
#[derive(Debug)]
pub struct CompletionItem {
    pub label: String,
    pub kind: CompletionItemKind,
    pub detail: Option<String>,
    pub documentation: Option<String>,
    pub filter_text: Option<String>,
    pub text_edit: Option<TextEdit>,
    pub data: Option<ResolveData>,
}

/// What a [`CompletionItem`] says.
pub struct ItemView {
    pub label: Seq<char>,
    pub kind: CompletionItemKind,
    pub detail: Option<Seq<char>>,
    pub documentation: Option<Seq<char>>,
    pub filter_text: Option<Seq<char>>,
    pub text_edit: Option<TextEditView>,
    pub data: Option<ResolveView>,
}

impl DeepView for CompletionItem {
    type V = ItemView;

    open spec fn deep_view(&self) -> ItemView {
        ItemView {
            label: self.label@,
            kind: self.kind,
            detail: self.detail.deep_view(),
            documentation: self.documentation.deep_view(),
            filter_text: self.filter_text.deep_view(),
            text_edit: self.text_edit.deep_view(),
            data: self.data.deep_view(),
        }
    }
}

/// An item of a label and a kind alone.
pub open spec fn bare_item(label: Seq<char>, kind: CompletionItemKind) -> ItemView {
    ItemView {
        label,
        kind,
        detail: None,
        documentation: None,
        filter_text: None,
        text_edit: None,
        data: None,
    }
}

/// The item for a sequence: it replaces the whole sequence with the character it
/// stands for.
pub open spec fn sequence_item(entry: (Seq<char>, Seq<char>), range: Range) -> ItemView {
    ItemView {
        label: entry.0,
        kind: CompletionItemKind::Text,
        detail: Some(entry.1),
        documentation: Some(
            "`"@ + entry.1 + "` "@ + separated(
                Seq::new(entry.1.len(), |i: int| code_point(entry.1[i])),
                " "@,
            ),
        ),
        filter_text: Some(entry.0),
        text_edit: Some(TextEditView { range, new_text: entry.1 }),
        data: None,
    }
}

/// The item for a sequence.
pub fn latex_item(sequence: &str, expansion: &str, range: Range) -> (r: CompletionItem)
    ensures
        r.deep_view() == sequence_item((sequence@, expansion@), range),
{
    let mut documentation = cat("`", expansion);
    let points = codepoints(expansion);
    documentation.append("` ");
    documentation.append(points.as_str());
    CompletionItem {
        label: sequence.to_owned(),
        kind: CompletionItemKind::Text,
        detail: Some(expansion.to_owned()),
        documentation: Some(documentation),
        filter_text: Some(sequence.to_owned()),
        text_edit: Some(TextEdit { range, new_text: expansion.to_owned() }),
        data: None,
    }
}

/// The items for the entries of a table whose key begins with what was typed.
pub open spec fn table_items(table: Seq<(&str, &str)>, typed: Seq<char>, range: Range) -> Seq<
    ItemView,
>
    decreases table.len(),
{
    if table.len() == 0 {
        Seq::empty()
    } else {
        let before = table_items(table.drop_last(), typed, range);
        let entry = table.last();
        if typed.is_prefix_of(entry.0@) {
            before.push(sequence_item((entry.0@, entry.1@), range))
        } else {
            before
        }
    }
}

proof fn lemma_table_items(
    table: Seq<(&str, &str)>,
    typed: Seq<char>,
    range: Range,
    start: int,
    end: int,
    n: int,
)
    requires
        is_matching_run(table, typed, start, end),
        0 <= n <= table.len(),
    ensures
        table_items(table.take(n), typed, range) == Seq::new(
            (if n <= start {
                0
            } else if n <= end {
                n - start
            } else {
                end - start
            }) as nat,
            |i: int|
                sequence_item((table[start + i].0@, table[start + i].1@), range),
        ),
    decreases n,
{
    let goal = Seq::new(
        (if n <= start {
            0
        } else if n <= end {
            n - start
        } else {
            end - start
        }) as nat,
        |i: int| sequence_item((table[start + i].0@, table[start + i].1@), range),
    );
    if n > 0 {
        lemma_table_items(table, typed, range, start, end, n - 1);
        assert(table.take(n).drop_last() =~= table.take(n - 1));
        assert(table.take(n).last() == table[n - 1]);
        assert(typed.is_prefix_of(table[n - 1].0@) <==> start <= n - 1 < end);
        assert(table_items(table.take(n), typed, range) =~= goal);
    } else {
        assert(table.take(0).len() == 0);
        assert(table_items(table.take(n), typed, range) =~= goal);
    }
}

fn push_table_items(
    table: &[(&str, &str)],
    typed: &str,
    range: Range,
    out: &mut Vec<CompletionItem>,
)
    requires
        keys_ascend(table@),
    ensures
        final(out).deep_view() == old(out).deep_view() + table_items(table@, typed@, range),
{
    let ghost t = table@;
    let ghost before = out.deep_view();
    let run = prefixed(table, typed);
    let ghost (start, end) = choose|start: int, end: int|
        #![trigger table@.subrange(start, end)]
        is_matching_run(table@, typed@, start, end) && run@ == table@.subrange(start, end);
    let ghost goal = table_items(t, typed@, range);
    proof {
        lemma_table_items(t, typed@, range, start, end, t.len() as int);
        assert(t.take(t.len() as int) =~= t);
        assert(before + goal.take(0) =~= before);
    }
    let mut i: usize = 0;
    while i < run.len()
        invariant
            is_matching_run(t, typed@, start, end),
            run@ == t.subrange(start, end),
            goal == Seq::new(
                (end - start) as nat,
                |i: int| sequence_item((t[start + i].0@, t[start + i].1@), range),
            ),
            i <= run.len(),
            out.deep_view() == before + goal.take(i as int),
        decreases run.len() - i,
    {
        let (sequence, expansion) = run[i];
        let ghost held = out.deep_view();
        out.push(latex_item(sequence, expansion, range));
        i = i + 1;
        proof {
            assert(run@[i - 1] == t[start + i - 1]);
            assert(out.deep_view() =~= held.push(goal[i - 1]));
            assert(held.push(goal[i - 1]) =~= before + goal.take(i as int));
        }
    }
    proof {
        assert(goal.take(i as int) =~= goal);
    }
}

/// The tables of sequences.
#[derive(Debug)]
pub struct SequenceTables<'a> {
    pub latex: &'a [(&'a str, &'a str)],
    pub emoji: &'a [(&'a str, &'a str)],
}

impl SequenceTables<'_> {
    /// Both tables are sorted.
    pub open spec fn wf(&self) -> bool {
        keys_ascend(self.latex@) && keys_ascend(self.emoji@)
    }
}

/// The items for what was typed: from the table of characters, and from that of
/// emoji once a colon is there.
pub open spec fn sequence_items(
    latex: Seq<(&str, &str)>,
    emoji: Seq<(&str, &str)>,
    typed: Seq<char>,
    range: Range,
) -> Seq<ItemView> {
    table_items(latex, typed, range) + (if "\\:"@.is_prefix_of(typed) {
        table_items(emoji, typed, range)
    } else {
        Seq::empty()
    })
}

/// The items for the sequence `typed`, which stands in `range`.
pub fn latex_items(tables: &SequenceTables, typed: &str, range: Range) -> (r: Vec<CompletionItem>)
    requires
        tables.wf(),
    ensures
        r.deep_view() == sequence_items(tables.latex@, tables.emoji@, typed@, range),
{
    let mut out: Vec<CompletionItem> = Vec::new();
    proof {
        assert(out.deep_view() =~= Seq::<ItemView>::empty());
        assert(Seq::<ItemView>::empty() + table_items(tables.latex@, typed@, range)
            =~= table_items(tables.latex@, typed@, range));
    }
    push_table_items(tables.latex, typed, range, &mut out);
    if starts_with(typed, "\\:") {
        push_table_items(tables.emoji, typed, range, &mut out);
    } else {
        proof {
            let s = out.deep_view();
            assert(s + Seq::<ItemView>::empty() =~= s);
        }
    }
    out
}

/// Where a name that is visible comes from.
#[derive(Debug)]
pub enum Source {
    /// A binding of the file.
    Binding(usize),
    /// A module of the library.
    Module(String),
}

/// A name that is visible at the cursor.
#[derive(Debug)]
pub struct Candidate {
    pub name: String,
    pub source: Source,
}

/// The names that are visible at the cursor, in the order in which they mask each
/// other.
#[derive(Debug)]
pub struct Visible {
    pub values: Vec<Candidate>,
    pub macros: Vec<Candidate>,
}

/// Whether names are sought as values or as macros.
#[derive(Clone, Copy, Debug, PartialEq, Eq, Structural)]
pub enum Namespace {
    Value,
    Macro,
}

/// The kind that a binding shows as.
pub open spec fn item_kind(kind: BindingKind) -> CompletionItemKind {
    match kind {
        BindingKind::Global | BindingKind::Local | BindingKind::ForVar | BindingKind::LetVar =>
            CompletionItemKind::Variable,
        BindingKind::Const => CompletionItemKind::Constant,
        BindingKind::Param | BindingKind::KeywordParam | BindingKind::CatchParam =>
            CompletionItemKind::Variable,
        BindingKind::TypeParam => CompletionItemKind::TypeParameter,
        BindingKind::Field => CompletionItemKind::Field,
        BindingKind::Function | BindingKind::Macro => CompletionItemKind::Function,
        BindingKind::Type => CompletionItemKind::Class,
        BindingKind::Module | BindingKind::Import => CompletionItemKind::Module,
    }
}

/// The kind that a binding shows as.
pub fn binding_kind(kind: BindingKind) -> (r: CompletionItemKind)
    ensures
        r == item_kind(kind),
{
    match kind {
        BindingKind::Global | BindingKind::Local | BindingKind::ForVar | BindingKind::LetVar =>
            CompletionItemKind::Variable,
        BindingKind::Const => CompletionItemKind::Constant,
        BindingKind::Param | BindingKind::KeywordParam | BindingKind::CatchParam =>
            CompletionItemKind::Variable,
        BindingKind::TypeParam => CompletionItemKind::TypeParameter,
        BindingKind::Field => CompletionItemKind::Field,
        BindingKind::Function | BindingKind::Macro => CompletionItemKind::Function,
        BindingKind::Type => CompletionItemKind::Class,
        BindingKind::Module | BindingKind::Import => CompletionItemKind::Module,
    }
}

/// The kind that a name of the library shows as: by convention, an upper-case
/// letter begins a type or a module.
pub open spec fn name_kind(name: Seq<char>, namespace: Namespace) -> CompletionItemKind {
    if namespace == Namespace::Value && name.len() > 0 && char_is_uppercase(name[0]) {
        CompletionItemKind::Class
    } else {
        CompletionItemKind::Function
    }
}

/// The kind that a name of the library shows as.
pub fn heuristic_kind(name: &str, namespace: Namespace) -> (r: CompletionItemKind)
    ensures
        r == name_kind(name@, namespace),
{
    let chars = chars_of(name);
    let value = match namespace {
        Namespace::Value => true,
        Namespace::Macro => false,
    };
    if value && chars.len() > 0 && chars[0].is_uppercase() {
        CompletionItemKind::Class
    } else {
        CompletionItemKind::Function
    }
}

/// The item for a member of a module: the module as its detail, and where to look
/// it up.
pub open spec fn module_item(
    name: Seq<char>,
    kind: CompletionItemKind,
    module: Seq<Seq<char>>,
) -> ItemView {
    ItemView {
        label: name,
        kind,
        detail: if module.len() > 0 {
            Some(module.last())
        } else {
            None
        },
        documentation: None,
        filter_text: None,
        text_edit: None,
        data: Some(ResolveView { module, name }),
    }
}

/// The item for a member of a module.
pub fn member_item(name: &str, kind: CompletionItemKind, module: &Vec<String>) -> (r:
    CompletionItem)
    ensures
        r.deep_view() == module_item(name@, kind, module.deep_view()),
{
    let count = module.len();
    let detail = if count > 0 {
        proof {
            assert(module.deep_view().last() == module@[count - 1]@);
        }
        Some(module[count - 1].clone())
    } else {
        None
    };
    CompletionItem {
        label: name.to_owned(),
        kind,
        detail,
        documentation: None,
        filter_text: None,
        text_edit: None,
        data: Some(ResolveData { module: copy_texts(module), name: name.to_owned() }),
    }
}

/// The item for a name that is visible.
pub open spec fn visible_item(
    model: SemanticModel,
    candidate: Candidate,
    namespace: Namespace,
) -> ItemView {
    match candidate.source {
        Source::Binding(id) => {
            let kind = model.bindings@[id as int].kind;
            ItemView {
                detail: Some(kind_label(kind)),
                ..bare_item(candidate.name@, item_kind(kind))
            }
        },
        Source::Module(module) => module_item(
            candidate.name@,
            name_kind(candidate.name@, namespace),
            seq![module@],
        ),
    }
}

/// The item for a name that is visible.
pub fn candidate_item(model: &SemanticModel, candidate: &Candidate, namespace: Namespace) -> (r:
    CompletionItem)
    requires
        candidate.source is Binding ==> candidate.source->Binding_0 < model.bindings.len(),
    ensures
        r.deep_view() == visible_item(*model, *candidate, namespace),
{
    match &candidate.source {
        Source::Binding(id) => {
            let kind = model.bindings[*id].kind;
            CompletionItem {
                label: candidate.name.clone(),
                kind: binding_kind(kind),
                detail: Some(binding_detail(kind).to_owned()),
                documentation: None,
                filter_text: None,
                text_edit: None,
                data: None,
            }
        },
        Source::Module(module) => {
            let path = vec![module.clone()];
            proof {
                assert(path.deep_view() =~= seq![module@]);
            }
            member_item(
                candidate.name.as_str(),
                heuristic_kind(candidate.name.as_str(), namespace),
                &path,
            )
        },
    }
}

fn plain_item(label: &str, kind: CompletionItemKind) -> (r: CompletionItem)
    ensures
        r.deep_view() == bare_item(label@, kind),
{
    CompletionItem {
        label: label.to_owned(),
        kind,
        detail: None,
        documentation: None,
        filter_text: None,
        text_edit: None,
        data: None,
    }
}

/// The item for a keyword.
pub fn keyword_item(keyword: &str) -> (r: CompletionItem)
    ensures
        r.deep_view() == bare_item(keyword@, CompletionItemKind::Keyword),
{
    plain_item(keyword, CompletionItemKind::Keyword)
}

/// The item for a function of a module itself.
pub open spec fn function_member(path: Seq<Seq<char>>) -> spec_fn(FunctionGroup) -> Option<
    ItemView,
> {
    |group: FunctionGroup|
        if group.owner is None {
            Some(module_item(group.name@, CompletionItemKind::Function, path))
        } else {
            None
        }
}

/// The items for what a module defines: its macros, or else its own functions, its
/// types, its constants and its submodules.
pub open spec fn members(module: ModuleIndex, path: Seq<Seq<char>>, macro_member: bool) -> Seq<
    ItemView,
> {
    if macro_member {
        Seq::new(
            module.macros.len() as nat,
            |i: int| module_item(module.macros@[i].name@, CompletionItemKind::Function, path),
        )
    } else {
        kept(module.functions@, function_member(path)) + Seq::new(
            module.types.len() as nat,
            |i: int| module_item(module.types@[i].name@, CompletionItemKind::Class, path),
        ) + Seq::new(
            module.consts.len() as nat,
            |i: int| module_item(module.consts@[i].name@, CompletionItemKind::Constant, path),
        ) + Seq::new(
            module.submodules.len() as nat,
            |i: int| module_item(module.submodules@[i].name@, CompletionItemKind::Module, path),
        )
    }
}

/// The names of items that are found by them.
fn push_named<T: crate::index::Named>(
    items: &Vec<T>,
    kind: CompletionItemKind,
    path: &Vec<String>,
    out: &mut Vec<CompletionItem>,
)
    ensures
        final(out).deep_view() == old(out).deep_view() + Seq::new(
            items.len() as nat,
            |i: int| module_item(items@[i].named(), kind, path.deep_view()),
        ),
{
    let ghost before = out.deep_view();
    let ghost goal = Seq::new(
        items.len() as nat,
        |i: int| module_item(items@[i].named(), kind, path.deep_view()),
    );
    let mut i: usize = 0;
    proof {
        assert(before + goal.take(0) =~= before);
    }
    while i < items.len()
        invariant
            i <= items.len(),
            goal == Seq::new(
                items.len() as nat,
                |i: int| module_item(items@[i].named(), kind, path.deep_view()),
            ),
            out.deep_view() == before + goal.take(i as int),
        decreases items.len() - i,
    {
        let ghost held = out.deep_view();
        out.push(member_item(items[i].name(), kind, path));
        i = i + 1;
        proof {
            assert(out.deep_view() =~= held.push(goal[i - 1]));
            assert(held.push(goal[i - 1]) =~= before + goal.take(i as int));
        }
    }
    proof {
        assert(goal.take(i as int) =~= goal);
    }
}

/// The items for what a module defines.
pub fn member_items(module: &ModuleIndex, path: &Vec<String>, macro_member: bool) -> (r: Vec<
    CompletionItem,
>)
    ensures
        r.deep_view() == members(*module, path.deep_view(), macro_member),
{
    let ghost p = path.deep_view();
    let mut items: Vec<CompletionItem> = Vec::new();
    if macro_member {
        push_named(&module.macros, CompletionItemKind::Function, path, &mut items);
        proof {
            assert(items.deep_view() =~= members(*module, p, macro_member));
        }
        return items;
    }
    let ghost pick = function_member(p);
    let ghost groups = module.functions@;
    let mut i: usize = 0;
    proof {
        assert(groups.take(0) =~= Seq::<FunctionGroup>::empty());
        assert(items.deep_view() =~= Seq::<ItemView>::empty());
    }
    while i < module.functions.len()
        invariant
            i <= groups.len(),
            groups == module.functions@,
            p == path.deep_view(),
            pick == function_member(p),
            items.deep_view() == kept(groups.take(i as int), pick),
        decreases groups.len() - i,
    {
        proof {
            lemma_kept_step(groups, pick, i as int);
        }
        let group = &module.functions[i];
        i = i + 1;
        if group.owner.is_none() {
            let ghost held = items.deep_view();
            items.push(member_item(group.name.as_str(), CompletionItemKind::Function, path));
            proof {
                assert(items.deep_view() =~= held.push(items@.last().deep_view()));
            }
        }
    }
    proof {
        assert(groups.take(i as int) =~= groups);
    }
    push_named(&module.types, CompletionItemKind::Class, path, &mut items);
    push_named(&module.consts, CompletionItemKind::Constant, path, &mut items);
    push_named(&module.submodules, CompletionItemKind::Module, path, &mut items);
    proof {
        assert(items.deep_view() =~= members(*module, p, macro_member));
    }
    items
}

/// The items for the members of the module that a receiver names.
pub open spec fn receiver_members(
    library: Library,
    receiver: Seq<Seq<char>>,
    macro_member: bool,
) -> Seq<ItemView> {
    if receiver.len() == 0 {
        Seq::empty()
    } else {
        match package_of(library, receiver[0]) {
            Some(package) => match submodule(package.root, receiver.skip(1)) {
                Some(module) => members(module, receiver, macro_member),
                None => Seq::empty(),
            },
            None => Seq::empty(),
        }
    }
}

fn no_items() -> (r: Vec<CompletionItem>)
    ensures
        r.deep_view() == Seq::<ItemView>::empty(),
{
    let none: Vec<CompletionItem> = Vec::new();
    proof {
        assert(none.deep_view() =~= Seq::<ItemView>::empty());
    }
    none
}

/// The items for the members of the module that `receiver` names.
pub fn member_completions(library: &Library, receiver: &Vec<String>, macro_member: bool) -> (r: Vec<
    CompletionItem,
>)
    ensures
        r.deep_view() == receiver_members(*library, receiver.deep_view(), macro_member),
{
    if receiver.len() == 0 {
        return no_items();
    }
    proof {
        assert(receiver.deep_view()[0] == receiver@[0]@);
    }
    let package = match library.package(receiver[0].as_str()) {
        Some(package) => package,
        None => {
            return no_items();
        },
    };
    match resolve_submodule(&package.root, receiver, 1) {
        Some(module) => member_items(module, receiver, macro_member),
        None => no_items(),
    }
}

/// The items for names that are visible.
pub open spec fn visible_items(
    model: SemanticModel,
    candidates: Seq<Candidate>,
    namespace: Namespace,
) -> Seq<ItemView> {
    Seq::new(candidates.len(), |i: int| visible_item(model, candidates[i], namespace))
}

/// Whether the bindings that names come from are those of a model.
pub open spec fn candidates_ok(model: SemanticModel, candidates: Seq<Candidate>) -> bool {
    forall|i: int|
        0 <= i < candidates.len() && (#[trigger] candidates[i]).source is Binding
            ==> candidates[i].source->Binding_0 < model.bindings.len()
}

fn candidate_items(model: &SemanticModel, candidates: &Vec<Candidate>, namespace: Namespace) -> (r:
    Vec<CompletionItem>)
    requires
        candidates_ok(*model, candidates@),
    ensures
        r.deep_view() == visible_items(*model, candidates@, namespace),
{
    let mut items: Vec<CompletionItem> = Vec::new();
    let mut i: usize = 0;
    while i < candidates.len()
        invariant
            candidates_ok(*model, candidates@),
            i <= candidates.len(),
            items.len() == i,
            forall|k: int|
                0 <= k < i ==> #[trigger] items@[k].deep_view() == visible_item(
                    *model,
                    candidates@[k],
                    namespace,
                ),
        decreases candidates.len() - i,
    {
        items.push(candidate_item(model, &candidates[i], namespace));
        i = i + 1;
    }
    proof {
        assert(items.deep_view() =~= visible_items(*model, candidates@, namespace));
    }
    items
}

/// Whether a sequence is not offered: in a literal whose backslashes are its own,
/// and in a plain string where it is an escape so far.
pub open spec fn suppressed(t: Seq<Element>, offset: u32, typed: Seq<char>) -> bool {
    match string_context(t, offset) {
        StringContext::Verbatim => true,
        StringContext::Plain => typed.len() == 2 && escape_char(typed[1]),
        StringContext::Code => false,
    }
}

/// The items at an offset.
pub open spec fn items_at(
    s: Seq<char>,
    t: Seq<Element>,
    model: SemanticModel,
    library: Library,
    visible: Visible,
    keywords: Seq<Seq<char>>,
    latex: Seq<(&str, &str)>,
    emoji: Seq<(&str, &str)>,
    offset: u32,
    encoding: PositionEncoding,
) -> Seq<ItemView> {
    let end = char_index(s, offset as int);
    match context_of(s.take(end)) {
        ContextView::Latex { start } => {
            let typed = s.subrange(char_index(s, start as int), end);
            if suppressed(t, offset, typed) {
                Seq::empty()
            } else {
                sequence_items(
                    latex,
                    emoji,
                    typed,
                    range_at(s, start as int, offset as int, encoding),
                )
            }
        },
        ContextView::Member { receiver, macro_member } => receiver_members(
            library,
            receiver,
            macro_member,
        ),
        ContextView::Macro => visible_items(model, visible.macros@, Namespace::Macro),
        ContextView::Value => visible_items(model, visible.values@, Namespace::Value) + Seq::new(
            keywords.len(),
            |i: int| bare_item(keywords[i], CompletionItemKind::Keyword),
        ),
    }
}

/// A sequence begins within the text before the cursor.
proof fn lemma_sequence_bounded(s: Seq<char>, i: int)
    requires
        i <= s.len(),
    ensures
        backslash_before(s, i) is Some ==> 0 <= backslash_before(s, i)->0 < i && s[backslash_before(
            s,
            i,
        )->0] == '\\',
    decreases i,
{
    if i > 0 {
        lemma_sequence_bounded(s, i - 1);
    }
}

/// The items at `offset` of `text`. `visible` are the names that are visible
/// there.
pub fn completions_for(
    model: &SemanticModel,
    tree: &SyntaxTree,
    library: &Library,
    visible: &Visible,
    keywords: &Vec<String>,
    tables: &SequenceTables,
    text: &str,
    offset: u32,
    encoding: PositionEncoding,
) -> (r: Vec<CompletionItem>)
    requires
        fits(text@),
        tree.wf(),
        tables.wf(),
        candidates_ok(*model, visible.values@),
        candidates_ok(*model, visible.macros@),
    ensures
        r.deep_view() == items_at(
            text@,
            tree@,
            *model,
            *library,
            *visible,
            keywords.deep_view(),
            tables.latex@,
            tables.emoji@,
            offset,
            encoding,
        ),
{
    match context_at(text, offset as usize) {
        Context::Latex { start } => {
            let line_index = LineIndex::new(text);
            let (from, _) = line_index.char_at(start);
            let (end, _) = line_index.char_at(offset as usize);
            proof {
                let s = text@;
                let prefix = s.take(end as int);
                lemma_char_index(s, offset as int);
                lemma_sequence_bounded(prefix, prefix.len() as int);
                let at = backslash_before(prefix, prefix.len() as int)->0;
                assert(prefix.take(at) =~= s.take(at));
                crate::text::lemma_char_index_of_boundary(s, at);
                assert(from == at);
            }
            let typed = text_between(line_index.chars(), from, end);
            let chars = chars_of(typed.as_str());
            let tail = text_between(&chars, 1, chars.len());
            proof {
                assert(tail@ =~= typed@.skip(1));
            }
            let quiet = match string_context_at(tree, offset) {
                StringContext::Verbatim => true,
                StringContext::Plain => is_lone_escape(tail.as_str()),
                StringContext::Code => false,
            };
            if quiet {
                no_items()
            } else {
                latex_items(
                    tables,
                    typed.as_str(),
                    line_index.range(start, offset as usize, encoding),
                )
            }
        },
        Context::Member { receiver, macro_member } => member_completions(
            library,
            &receiver,
            macro_member,
        ),
        Context::Macro => candidate_items(model, &visible.macros, Namespace::Macro),
        Context::Value => {
            let mut items = candidate_items(model, &visible.values, Namespace::Value);
            let ghost before = items.deep_view();
            let ghost words = keywords.deep_view();
            let ghost goal = Seq::new(
                words.len(),
                |i: int| bare_item(words[i], CompletionItemKind::Keyword),
            );
            let mut i: usize = 0;
            proof {
                assert(before + goal.take(0) =~= before);
            }
            while i < keywords.len()
                invariant
                    i <= keywords.len(),
                    words == keywords.deep_view(),
                    goal == Seq::new(
                        words.len(),
                        |i: int| bare_item(words[i], CompletionItemKind::Keyword),
                    ),
                    items.deep_view() == before + goal.take(i as int),
                decreases keywords.len() - i,
            {
                let ghost held = items.deep_view();
                items.push(keyword_item(keywords[i].as_str()));
                i = i + 1;
                proof {
                    assert(words[i - 1] == keywords@[i - 1]@);
                    assert(items.deep_view() =~= held.push(goal[i - 1]));
                    assert(held.push(goal[i - 1]) =~= before + goal.take(i as int));
                }
            }
            proof {
                assert(goal.take(i as int) =~= goal);
            }
            items
        },
    }
}

/// The items for the anchors of docstrings, where the target of a `@ref` link is
/// under the cursor: each label once.
pub open spec fn reference_items(docs: Seq<DocText>, offset: u32) -> Seq<ItemView> {
    if ref_under(docs, offset) is Some {
        let labels = labels_in(docs);
        Seq::new(labels.len(), |i: int| bare_item(labels[i], CompletionItemKind::Reference))
    } else {
        Seq::empty()
    }
}

fn anchor_items(docs: &Vec<DocText>, offset: u32) -> (r: Vec<CompletionItem>)
    requires
        docs_wf(docs@),
    ensures
        r.deep_view() == reference_items(docs@, offset),
{
    if find_ref(docs, offset).is_none() {
        return no_items();
    }
    let labels = anchor_labels(docs);
    let mut out: Vec<CompletionItem> = Vec::new();
    let mut i: usize = 0;
    while i < labels.len()
        invariant
            i <= labels.len(),
            out.len() == i,
            forall|k: int|
                0 <= k < i ==> #[trigger] out@[k].deep_view() == bare_item(
                    labels.deep_view()[k],
                    CompletionItemKind::Reference,
                ),
        decreases labels.len() - i,
    {
        out.push(plain_item(labels[i].as_str(), CompletionItemKind::Reference));
        i = i + 1;
    }
    proof {
        assert(labels.deep_view().len() == labels.len());
        assert(out.deep_view() =~= reference_items(docs@, offset));
    }
    out
}

/// The items at `position` of `text`, whose docstrings are `docs`: the anchors where
/// a `@ref` link is being written, then what can stand there as code.
pub fn compute_completions(
    text: &str,
    position: Position,
    tree: &SyntaxTree,
    model: &SemanticModel,
    library: &Library,
    visible: &Visible,
    keywords: &Vec<String>,
    tables: &SequenceTables,
    docs: &Vec<DocText>,
    encoding: PositionEncoding,
) -> (r: Vec<CompletionItem>)
    requires
        fits(text@),
        tree.wf(),
        tables.wf(),
        candidates_ok(*model, visible.values@),
        candidates_ok(*model, visible.macros@),
        docs_wf(docs@),
    ensures
        r.deep_view() == reference_items(
            docs@,
            offset_at(text@, position, encoding) as u32,
        ) + items_at(
            text@,
            tree@,
            *model,
            *library,
            *visible,
            keywords.deep_view(),
            tables.latex@,
            tables.emoji@,
            offset_at(text@, position, encoding) as u32,
            encoding,
        ),
{
    let line_index = LineIndex::new(text);
    proof {
        lemma_offset_bounded(text@, position, encoding);
    }
    let offset = line_index.position_to_byte(position, encoding) as u32;
    let mut items = anchor_items(docs, offset);
    let mut code = completions_for(
        model,
        tree,
        library,
        visible,
        keywords,
        tables,
        text,
        offset,
        encoding,
    );
    let ghost first = items.deep_view();
    let ghost second = code.deep_view();
    items.append(&mut code);
    proof {
        assert(items.deep_view() =~= first + second);
    }
    items
}

/// An item with a docstring, where there is one.
pub open spec fn with_doc(item: ItemView, doc: Option<String>) -> ItemView {
    match doc {
        Some(doc) => ItemView { documentation: Some(doc@), ..item },
        None => item,
    }
}

/// An item with the signature and the docstring of a name that a module defines:
/// a macro by its sigil, then a function, a type, a constant.
pub open spec fn enriched(item: ItemView, module: ModuleIndex, name: Seq<char>) -> ItemView {
    if name.len() > 0 && name[0] == '@' {
        if holds_name(module.macros@, name) {
            with_doc(item, module.macros@[name_index(module.macros@, name)].doc)
        } else {
            item
        }
    } else if holds_name(module.functions@, name) {
        let group = module.functions@[name_index(module.functions@, name)];
        with_doc(ItemView { detail: Some(function_line(group)), ..item }, group.doc)
    } else if holds_name(module.types@, name) {
        let def = module.types@[name_index(module.types@, name)];
        with_doc(ItemView { detail: Some(type_line(def)), ..item }, def.doc)
    } else if holds_name(module.consts@, name) {
        let def = module.consts@[name_index(module.consts@, name)];
        with_doc(
            match def.value_repr {
                Some(repr) => ItemView { detail: Some(name + " = "@ + repr@), ..item },
                None => item,
            },
            def.doc,
        )
    } else {
        item
    }
}

fn set_doc(item: &mut CompletionItem, doc: &Option<String>)
    ensures
        final(item).deep_view() == with_doc(old(item).deep_view(), *doc),
{
    if let Some(text) = doc {
        item.documentation = Some(text.clone());
    }
}

/// Gives an item the signature and the docstring of a name that a module defines.
pub fn enrich(item: &mut CompletionItem, module: &ModuleIndex, name: &str)
    ensures
        final(item).deep_view() == enriched(old(item).deep_view(), *module, name@),
{
    let chars = chars_of(name);
    proof {
        lemma_first_index(module.macros@, has_name::<MacroDef>(name@));
        lemma_first_index(module.functions@, has_name::<FunctionGroup>(name@));
        lemma_first_index(module.types@, has_name::<TypeDef>(name@));
        lemma_first_index(module.consts@, has_name::<ConstDef>(name@));
    }
    if chars.len() > 0 && chars[0] == '@' {
        let at = find_named(&module.macros, name);
        if at < module.macros.len() {
            set_doc(item, &module.macros[at].doc);
        }
        return;
    }
    let at = find_named(&module.functions, name);
    if at < module.functions.len() {
        let group = &module.functions[at];
        item.detail = Some(function_detail(group));
        set_doc(item, &group.doc);
        return;
    }
    let at = find_named(&module.types, name);
    if at < module.types.len() {
        let def = &module.types[at];
        item.detail = Some(type_detail(def));
        set_doc(item, &def.doc);
        return;
    }
    let at = find_named(&module.consts, name);
    if at < module.consts.len() {
        let def = &module.consts[at];
        if let Some(repr) = &def.value_repr {
            let mut detail = cat(name, " = ");
            detail.append(repr.as_str());
            item.detail = Some(detail);
        }
        set_doc(item, &def.doc);
    }
}

/// The docstring of a name that a module defines: a macro by its sigil, then a
/// function, a type, a constant.
pub open spec fn doc_in(module: ModuleIndex, name: Seq<char>) -> Option<String> {
    if name.len() > 0 && name[0] == '@' {
        if holds_name(module.macros@, name) {
            module.macros@[name_index(module.macros@, name)].doc
        } else {
            None
        }
    } else if holds_name(module.functions@, name) {
        module.functions@[name_index(module.functions@, name)].doc
    } else if holds_name(module.types@, name) {
        module.types@[name_index(module.types@, name)].doc
    } else if holds_name(module.consts@, name) {
        module.consts@[name_index(module.consts@, name)].doc
    } else {
        None
    }
}

fn is_documented(module: &ModuleIndex, name: &str) -> (r: bool)
    ensures
        r == (doc_in(*module, name@) is Some),
{
    let chars = chars_of(name);
    proof {
        lemma_first_index(module.macros@, has_name::<MacroDef>(name@));
        lemma_first_index(module.functions@, has_name::<FunctionGroup>(name@));
        lemma_first_index(module.types@, has_name::<TypeDef>(name@));
        lemma_first_index(module.consts@, has_name::<ConstDef>(name@));
    }
    if chars.len() > 0 && chars[0] == '@' {
        let at = find_named(&module.macros, name);
        return at < module.macros.len() && module.macros[at].doc.is_some();
    }
    let at = find_named(&module.functions, name);
    if at < module.functions.len() {
        return module.functions[at].doc.is_some();
    }
    let at = find_named(&module.types, name);
    if at < module.types.len() {
        return module.types[at].doc.is_some();
    }
    let at = find_named(&module.consts, name);
    at < module.consts.len() && module.consts[at].doc.is_some()
}

/// The module that the data of an item names.
pub open spec fn data_module(data: ResolveView, library: Library) -> Option<ModuleIndex> {
    if data.module.len() == 0 {
        None
    } else {
        match package_of(library, data.module[0]) {
            Some(package) => submodule(package.root, data.module.skip(1)),
            None => None,
        }
    }
}

/// An item with its details, looked up where its data says. It stays as it is
/// without data, and where no docstring is found.
pub open spec fn resolved_item(item: ItemView, library: Library) -> ItemView {
    match item.data {
        Some(data) => match data_module(data, library) {
            Some(module) => if doc_in(module, data.name) is Some {
                enriched(ItemView { data: None, ..item }, module, data.name)
            } else {
                item
            },
            None => item,
        },
        None => item,
    }
}

/// Filling in the details of an item gives it the docstring that is found, or
/// leaves it as it is.
pub proof fn law_resolving_adds_docs_or_nothing(item: ItemView, library: Library)
    ensures
        match item.data {
            Some(data) => match data_module(data, library) {
                Some(module) => match doc_in(module, data.name) {
                    Some(doc) => resolved_item(item, library).documentation == Some(doc@),
                    None => resolved_item(item, library) == item,
                },
                None => resolved_item(item, library) == item,
            },
            None => resolved_item(item, library) == item,
        },
        resolved_item(item, library).label == item.label,
        resolved_item(item, library).kind == item.kind,
        resolved_item(item, library).text_edit == item.text_edit,
{
}

fn find_module<'a>(data: &ResolveData, library: &'a Library) -> (r: Option<&'a ModuleIndex>)
    ensures
        match r {
            Some(module) => data_module(data.deep_view(), *library) == Some(*module),
            None => data_module(data.deep_view(), *library) is None,
        },
{
    if data.module.len() == 0 {
        return None;
    }
    proof {
        assert(data.module.deep_view()[0] == data.module@[0]@);
    }
    match library.package(data.module[0].as_str()) {
        Some(package) => resolve_submodule(&package.root, &data.module, 1),
        None => None,
    }
}

/// Fills in the details of an item; one without data, or whose name has no
/// docstring, stays as it is.
pub fn resolve_completion(library: &Library, item: CompletionItem) -> (r: CompletionItem)
    ensures
        r.deep_view() == resolved_item(item.deep_view(), *library),
{
    let mut item = item;
    let (module, name) = match &item.data {
        Some(data) => match find_module(data, library) {
            Some(module) => (module, data.name.clone()),
            None => {
                return item;
            },
        },
        None => {
            return item;
        },
    };
    if is_documented(module, name.as_str()) {
        item.data = None;
        enrich(&mut item, module, name.as_str());
    }
    item
}

/// Whether a text is made of letters, digits, underscores and exclamation marks.
pub open spec fn is_word(s: Seq<char>) -> bool {
    forall|i: int|
        0 <= i < s.len() ==> char_is_alphanumeric(#[trigger] s[i]) || s[i] == '_' || s[i] == '!'
}

/// Whether a text ends where a word could begin: it is empty or ends in a character
/// that stands in no word.
pub open spec fn ends_apart(s: Seq<char>) -> bool {
    s.len() > 0 ==> !is_word(seq![s.last()])
}

proof fn lemma_word_start(before: Seq<char>, word: Seq<char>)
    requires
        is_word(word),
        ends_apart(before),
    ensures
        ident_start(before + word) == before.len(),
    decreases word.len(),
{
    let s = before + word;
    if word.len() == 0 {
        assert(s =~= before);
        if before.len() > 0 {
            assert(!is_word(seq![before.last()]));
            assert(!ident_char(before.last())) by {
                if ident_char(before.last()) {
                    assert(is_word(seq![before.last()]));
                }
            }
        }
    } else {
        assert(s.last() == word[word.len() - 1]);
        assert(ident_char(s.last()));
        assert(s.drop_last() =~= before + word.drop_last());
        assert(is_word(word.drop_last())) by {
            assert forall|i: int| 0 <= i < word.drop_last().len() implies char_is_alphanumeric(
                #[trigger] word.drop_last()[i],
            ) || word.drop_last()[i] == '_' || word.drop_last()[i] == '!' by {
                assert(word.drop_last()[i] == word[i]);
            }
        }
        lemma_word_start(before, word.drop_last());
    }
}

/// A text that ends in a word behind a character that can stand in no sequence ends
/// in none.
proof fn lemma_no_sequence(before: Seq<char>, word: Seq<char>, n: int)
    requires
        is_word(word),
        before.len() > 0 ==> before.last() != '\\' && !sequence_char(before.last()),
        0 <= n <= word.len(),
    ensures
        backslash_before(before + word, before.len() + n) is None,
    decreases n,
{
    let s = before + word;
    let i = before.len() + n;
    if n > 0 {
        assert(s[i - 1] == word[n - 1]);
        assert(word[n - 1] != '\\');
        lemma_no_sequence(before, word, n - 1);
    } else if i > 0 {
        assert(s[i - 1] == before.last());
    }
}

proof fn lemma_dotted_path(before: Seq<char>, path: Seq<Seq<char>>)
    requires
        path.len() > 0,
        forall|i: int|
            0 <= i < path.len() ==> is_word(#[trigger] path[i]) && path[i].len() > 0,
        ends_apart(before),
        before.len() > 0 ==> before.last() != '.',
    ensures
        dotted(before + separated(path, "."@)) == path,
    decreases path.len(),
{
    reveal_strlit(".");
    let last = path[path.len() - 1];
    let text = before + separated(path, "."@);
    assert(is_word(last) && last.len() > 0);
    if path.len() == 1 {
        assert(text =~= before + last);
        lemma_word_start(before, last);
        assert(text.skip(before.len() as int) =~= last);
        assert(text.take(before.len() as int) =~= before);
        assert(path =~= seq![last]);
    } else {
        let front = path.drop_last();
        assert forall|i: int| 0 <= i < front.len() implies is_word(#[trigger] front[i])
            && front[i].len() > 0 by {
            assert(front[i] == path[i]);
        }
        lemma_dotted_path(before, front);
        let lead = before + separated(front, "."@) + "."@;
        assert(text =~= lead + last);
        assert(lead.last() == '.');
        assert(!is_word(seq![lead.last()])) by {
            assert(!(char_is_alphanumeric('.')));
            assert(seq![lead.last()][0] == '.');
        }
        lemma_word_start(lead, last);
        assert(text.skip(lead.len() as int) =~= last);
        assert(text.take(lead.len() as int) =~= lead);
        assert(lead.drop_last() =~= before + separated(front, "."@));
        assert(path =~= front.push(last));
    }
}

/// Behind words with dots between, a dot and the beginning of a word, the cursor
/// completes a member of just that path; of its macros where a sigil stands before the
/// word.
pub proof fn law_behind_a_path_members_are_completed(
    before: Seq<char>,
    path: Seq<Seq<char>>,
    partial: Seq<char>,
    sigil: bool,
)
    requires
        path.len() > 0,
        forall|i: int|
            0 <= i < path.len() ==> is_word(#[trigger] path[i]) && path[i].len() > 0,
        ends_apart(before),
        before.len() > 0 ==> before.last() != '.',
        is_word(partial),
    ensures
        context_of(
            before + separated(path, "."@) + "."@ + (if sigil {
                "@"@
            } else {
                Seq::empty()
            }) + partial,
        ) == (ContextView::Member { receiver: path, macro_member: sigil }),
{
    reveal_strlit(".");
    reveal_strlit("@");
    let mark = if sigil {
        "@"@
    } else {
        Seq::empty()
    };
    let owner = before + separated(path, "."@);
    let lead = owner + "."@ + mark;
    let text = lead + partial;
    assert(text =~= before + separated(path, "."@) + "."@ + mark + partial);
    assert(lead.last() == if sigil {
        '@'
    } else {
        '.'
    });
    assert(!is_word(seq![lead.last()])) by {
        assert(seq![lead.last()][0] == lead.last());
    }
    lemma_word_start(lead, partial);
    lemma_no_sequence(lead, partial, partial.len() as int);
    assert(text.take(lead.len() as int) =~= lead);
    let rest = if sigil {
        lead.drop_last()
    } else {
        lead
    };
    assert(rest =~= owner + "."@);
    assert(rest.last() == '.');
    assert(rest.drop_last() =~= owner);
    lemma_dotted_path(before, path);
}

/// Behind a sigil and the beginning of a word, but no dot before them, the cursor
/// completes a macro.
pub proof fn law_behind_a_sigil_macros_are_completed(before: Seq<char>, partial: Seq<char>)
    requires
        before.len() > 0 ==> before.last() != '.',
        is_word(partial),
    ensures
        context_of(before + "@"@ + partial) is Macro,
{
    reveal_strlit("@");
    let lead = before + "@"@;
    let text = lead + partial;
    assert(lead.last() == '@');
    assert(!is_word(seq![lead.last()])) by {
        assert(seq![lead.last()][0] == '@');
    }
    lemma_word_start(lead, partial);
    lemma_no_sequence(lead, partial, partial.len() as int);
    assert(text.take(lead.len() as int) =~= lead);
    assert(lead.drop_last() =~= before);
}

/// The beginning of a word behind anything but a word, a sigil, a dot or a character
/// of a sequence completes a value.
pub proof fn law_elsewhere_values_are_completed(before: Seq<char>, partial: Seq<char>)
    requires
        ends_apart(before),
        before.len() > 0 ==> before.last() != '.' && before.last() != '@' && before.last() != '\\'
            && !sequence_char(before.last()),
        is_word(partial),
    ensures
        context_of(before + partial) is Value,
{
    let text = before + partial;
    lemma_word_start(before, partial);
    lemma_no_sequence(before, partial, partial.len() as int);
    assert(text.take(before.len() as int) =~= before);
}

/// Behind a backslash and characters that stand in sequences, no more of them than the
/// longest sequence has, the cursor completes the sequence from the backslash on.
pub proof fn law_behind_a_backslash_sequences_are_completed(before: Seq<char>, typed: Seq<char>)
    requires
        typed.len() < 43,
        forall|i: int| 0 <= i < typed.len() ==> is_typed_in_sequences(#[trigger] typed[i]),
    ensures
        context_of(before + seq!['\\'] + typed) == (ContextView::Latex { start: byte_len(before) }),
{
    let s = before + seq!['\\'] + typed;
    lemma_typed_backslash(before, typed, typed.len() as int);
    assert(s.take(before.len() as int) =~= before);
}

/// Whether a character is one that keys of sequences hold behind their backslash: an
/// ASCII letter or digit, or one of `_^/+-()!=<>:`.
pub open spec fn is_typed_in_sequences(c: char) -> bool {
    ||| 'a' <= c <= 'z'
    ||| 'A' <= c <= 'Z'
    ||| '0' <= c <= '9'
    ||| "_^/+-()!=<>:"@.contains(c)
}

proof fn lemma_typed_backslash(before: Seq<char>, typed: Seq<char>, n: int)
    requires
        typed.len() < 43,
        forall|i: int| 0 <= i < typed.len() ==> is_typed_in_sequences(#[trigger] typed[i]),
        0 <= n <= typed.len(),
    ensures
        backslash_before(before + seq!['\\'] + typed, before.len() + 1 + n) == Some(
            before.len() as int,
        ),
    decreases n,
{
    let s = before + seq!['\\'] + typed;
    let i = before.len() + 1 + n;
    lemma_ascii_bytes(s, i - 1);
    reveal_strlit("_^/+-()!=<>:");
    if n == 0 {
        assert(s[i - 1] == '\\');
    } else {
        let c = typed[n - 1];
        assert(s[i - 1] == c);
        assert(is_typed_in_sequences(c));
        if "_^/+-()!=<>:"@.contains(c) {
            let k = choose|k: int| 0 <= k < "_^/+-()!=<>:"@.len() && "_^/+-()!=<>:"@[k] == c;
            assert("_^/+-()!=<>:"@.len() == 12);
            assert(sequence_char(c));
        }
        lemma_typed_backslash(before, typed, n - 1);
    }
}

/// Characters of sequences have one byte each.
proof fn lemma_ascii_bytes(s: Seq<char>, from: int)
    requires
        0 <= from <= s.len(),
        forall|i: int|
            from <= i < s.len() ==> is_typed_in_sequences(#[trigger] s[i]) || s[i] == '\\',
    ensures
        byte_len(s) - byte_len(s.take(from)) == s.len() - from,
    decreases s.len() - from,
{
    if from == s.len() {
        assert(s.take(from) =~= s);
    } else {
        lemma_ascii_bytes(s, from + 1);
        lemma_newlines_step(s, from);
        assert(is_typed_in_sequences(s[from]) || s[from] == '\\');
        reveal_strlit("_^/+-()!=<>:");
        if "_^/+-()!=<>:"@.contains(s[from]) {
            let k = choose|k: int| 0 <= k < "_^/+-()!=<>:"@.len() && "_^/+-()!=<>:"@[k] == s[from];
            assert("_^/+-()!=<>:"@.len() == 12);
        }
    }
}

/// What kind an item for a binding shows as follows from what it binds.
pub proof fn law_items_show_what_bindings_bind(kind: BindingKind)
    ensures
        item_kind(kind) == CompletionItemKind::Function <==> kind == BindingKind::Function || kind
            == BindingKind::Macro,
        item_kind(kind) == CompletionItemKind::Class <==> kind == BindingKind::Type,
        item_kind(kind) == CompletionItemKind::Module <==> kind == BindingKind::Module || kind
            == BindingKind::Import,
        item_kind(kind) == CompletionItemKind::Constant <==> kind == BindingKind::Const,
        item_kind(kind) == CompletionItemKind::Field <==> kind == BindingKind::Field,
        item_kind(kind) == CompletionItemKind::TypeParameter <==> kind == BindingKind::TypeParam,
        item_kind(kind) == CompletionItemKind::Variable <==> kind == BindingKind::Global || kind
            == BindingKind::Local || kind == BindingKind::ForVar || kind == BindingKind::LetVar
            || kind == BindingKind::Param || kind == BindingKind::KeywordParam || kind
            == BindingKind::CatchParam,
{
}

/// Every macro of a module is offered as its macro member, and nothing else is; as
/// another member, every function of its own, every type, every constant and every
/// submodule is offered, each as what it is, and what only extends a function of
/// another module is not.
pub proof fn law_members_are_what_a_module_defines(
    module: ModuleIndex,
    path: Seq<Seq<char>>,
    k: int,
)
    ensures
        members(module, path, true).len() == module.macros.len(),
        0 <= k < module.macros.len() ==> members(module, path, true)[k] == module_item(
            module.macros@[k].name@,
            CompletionItemKind::Function,
            path,
        ),
        0 <= k < module.functions.len() && module.functions@[k].owner is None ==> members(
            module,
            path,
            false,
        ).contains(module_item(module.functions@[k].name@, CompletionItemKind::Function, path)),
        0 <= k < module.types.len() ==> members(module, path, false).contains(
            module_item(module.types@[k].name@, CompletionItemKind::Class, path),
        ),
        0 <= k < module.consts.len() ==> members(module, path, false).contains(
            module_item(module.consts@[k].name@, CompletionItemKind::Constant, path),
        ),
        0 <= k < module.submodules.len() ==> members(module, path, false).contains(
            module_item(module.submodules@[k].name@, CompletionItemKind::Module, path),
        ),
        (forall|i: int|
            0 <= i < module.functions.len() ==> (#[trigger] module.functions@[i]).owner is Some)
            ==> members(module, path, false).len() == module.types.len() + module.consts.len()
            + module.submodules.len(),
{
    let own = kept(module.functions@, function_member(path));
    let all = members(module, path, false);
    let types = module.types.len() as int;
    let consts = module.consts.len() as int;
    if 0 <= k < module.functions.len() && module.functions@[k].owner is None {
        let j = lemma_kept_holds(module.functions@, function_member(path), k);
        assert(all[j] == own[j]);
    }
    if 0 <= k < types {
        assert(all[own.len() + k] == module_item(
            module.types@[k].name@,
            CompletionItemKind::Class,
            path,
        ));
    }
    if 0 <= k < consts {
        assert(all[own.len() + types + k] == module_item(
            module.consts@[k].name@,
            CompletionItemKind::Constant,
            path,
        ));
    }
    if 0 <= k < module.submodules.len() {
        assert(all[own.len() + types + consts + k] == module_item(
            module.submodules@[k].name@,
            CompletionItemKind::Module,
            path,
        ));
    }
    if (forall|i: int|
        0 <= i < module.functions.len() ==> (#[trigger] module.functions@[i]).owner is Some)
        && own.len() > 0 {
        let i = lemma_kept_from(module.functions@, function_member(path), 0);
        assert(module.functions@[i].owner is Some);
    }
}

/// An item for a member shows its name and the module that it is a member of, and is
/// looked up again by its whole path.
pub proof fn law_member_items_lead_back(
    name: Seq<char>,
    kind: CompletionItemKind,
    module: Seq<Seq<char>>,
)
    requires
        module.len() > 0,
    ensures
        ({
            let item = module_item(name, kind, module);
            &&& item.label == name && item.kind == kind
            &&& item.detail == Some(module[module.len() - 1])
            &&& item.data is Some && item.data->0.module == module && item.data->0.name == name
            &&& item.documentation is None && item.text_edit is None && item.filter_text is None
        }),
{
}

/// A name that is visible shows as what its binding binds, or, where it comes from a
/// module, as a type where it begins with a capital and is no macro, as a function
/// otherwise; only the latter is looked up again.
pub proof fn law_visible_names_show_their_kind(
    model: SemanticModel,
    candidate: Candidate,
    namespace: Namespace,
)
    ensures
        ({
            let item = visible_item(model, candidate, namespace);
            &&& item.label == candidate.name@
            &&& item.documentation is None && item.text_edit is None && item.filter_text is None
            &&& match candidate.source {
                Source::Binding(id) => {
                    let kind = model.bindings@[id as int].kind;
                    &&& item.kind == item_kind(kind)
                    &&& item.detail == Some(kind_label(kind))
                    &&& item.data is None
                },
                Source::Module(module) => {
                    let capital = candidate.name@.len() > 0 && char_is_uppercase(
                        candidate.name@[0],
                    );
                    &&& item.kind == CompletionItemKind::Class <==> capital && namespace
                        == Namespace::Value
                    &&& item.kind == CompletionItemKind::Function <==> !(capital && namespace
                        == Namespace::Value)
                    &&& item.detail == Some(module@)
                    &&& item.data is Some && item.data->0.module == seq![module@]
                        && item.data->0.name == candidate.name@
                },
            }
        }),
{
}

/// Where a value is completed, every visible value is offered, and behind them every
/// keyword; where a macro is, every visible macro and nothing else.
pub proof fn law_all_that_is_visible_is_offered(
    s: Seq<char>,
    t: Seq<Element>,
    model: SemanticModel,
    library: Library,
    visible: Visible,
    keywords: Seq<Seq<char>>,
    latex: Seq<(&str, &str)>,
    emoji: Seq<(&str, &str)>,
    offset: u32,
    encoding: PositionEncoding,
    k: int,
)
    ensures
        ({
            let items = items_at(
                s,
                t,
                model,
                library,
                visible,
                keywords,
                latex,
                emoji,
                offset,
                encoding,
            );
            let context = context_of(s.take(char_index(s, offset as int)));
            &&& context is Value ==> {
                &&& items.len() == visible.values.len() + keywords.len()
                &&& 0 <= k < visible.values.len() ==> items[k] == visible_item(
                    model,
                    visible.values@[k],
                    Namespace::Value,
                )
                &&& 0 <= k < keywords.len() ==> items[visible.values.len() + k] == bare_item(
                    keywords[k],
                    CompletionItemKind::Keyword,
                )
            }
            &&& context is Macro ==> {
                &&& items.len() == visible.macros.len()
                &&& 0 <= k < visible.macros.len() ==> items[k] == visible_item(
                    model,
                    visible.macros@[k],
                    Namespace::Macro,
                )
            }
            &&& context is Member && context->receiver.len() > 0 ==> match package_of(
                library,
                context->receiver[0],
            ) {
                Some(package) => match submodule(package.root, context->receiver.skip(1)) {
                    Some(module) => items == members(
                        module,
                        context->receiver,
                        context->macro_member,
                    ),
                    None => items.len() == 0,
                },
                None => items.len() == 0,
            }
        }),
{
}

/// A key of a table is offered exactly where it begins with what was typed, and
/// replaces what was typed with what it stands for.
pub proof fn law_keys_are_offered_by_their_beginning(
    table: Seq<(&str, &str)>,
    typed: Seq<char>,
    range: Range,
    k: int,
)
    ensures
        0 <= k < table.len() && typed.is_prefix_of(table[k].0@) ==> exists|j: int|
            0 <= j < table_items(table, typed, range).len() && (#[trigger] table_items(
                table,
                typed,
                range,
            )[j]).label == table[k].0@ && table_items(table, typed, range)[j].text_edit == Some(
                TextEditView { range, new_text: table[k].1@ },
            ),
        0 <= k < table_items(table, typed, range).len() ==> typed.is_prefix_of(
            table_items(table, typed, range)[k].label,
        ),
    decreases table.len(),
{
    if table.len() > 0 {
        let front = table.drop_last();
        let before = table_items(front, typed, range);
        let after = table_items(table, typed, range);
        law_keys_are_offered_by_their_beginning(front, typed, range, k);
        if 0 <= k < table.len() && typed.is_prefix_of(table[k].0@) {
            if k < front.len() {
                assert(front[k] == table[k]);
                let j = choose|j: int|
                    0 <= j < before.len() && (#[trigger] before[j]).label == table[k].0@
                        && before[j].text_edit == Some(
                        TextEditView { range, new_text: table[k].1@ },
                    );
                assert(after[j] == before[j]);
            } else {
                assert(after[before.len() as int].label == table[k].0@);
            }
        }
        if 0 <= k < after.len() && k < before.len() {
            assert(after[k] == before[k]);
        }
    }
}

/// The item for a sequence is found under the sequence and shows what it stands for.
pub proof fn law_sequence_items_show_what_they_stand_for(
    key: Seq<char>,
    expansion: Seq<char>,
    range: Range,
)
    ensures
        ({
            let item = sequence_item((key, expansion), range);
            &&& item.label == key && item.filter_text == Some(key)
            &&& item.detail == Some(expansion)
            &&& item.kind == CompletionItemKind::Text
            &&& item.text_edit == Some(TextEditView { range, new_text: expansion })
            &&& item.data is None
            &&& item.documentation is Some && ("`"@ + expansion + "` U+"@).len()
                <= item.documentation->0.len() || expansion.len() == 0
            &&& ("`"@ + expansion + "` "@).is_prefix_of(item.documentation->0)
        }),
{
    reveal_strlit("` ");
    reveal_strlit("` U+");
    reveal_strlit("U+");
    let item = sequence_item((key, expansion), range);
    let points = Seq::new(expansion.len(), |i: int| code_point(expansion[i]));
    let tail = separated(points, " "@);
    assert(item.documentation->0.subrange(0, ("`"@ + expansion + "` "@).len() as int) =~= "`"@
        + expansion + "` "@);
    if expansion.len() > 0 {
        law_parts_stand_whole(points, " "@, 0);
        assert(points[0].len() >= 2);
    }
}

/// Emoji are offered once a colon stands behind the backslash, and not before.
pub proof fn law_emoji_wait_for_their_colon(
    latex: Seq<(&str, &str)>,
    emoji: Seq<(&str, &str)>,
    typed: Seq<char>,
    range: Range,
)
    ensures
        ({
            let items = sequence_items(latex, emoji, typed, range);
            let plain = table_items(latex, typed, range);
            &&& typed.len() >= 2 && typed[0] == '\\' && typed[1] == ':' ==> items == plain
                + table_items(emoji, typed, range)
            &&& !(typed.len() >= 2 && typed[0] == '\\' && typed[1] == ':') ==> items == plain
        }),
{
    reveal_strlit("\\:");
    let mark = "\\:"@;
    assert(mark.len() == 2 && mark[0] == '\\' && mark[1] == ':');
    if mark.is_prefix_of(typed) {
        assert(typed.subrange(0, 2)[0] == mark[0]);
        assert(typed.subrange(0, 2)[1] == mark[1]);
    }
    if typed.len() >= 2 && typed[0] == '\\' && typed[1] == ':' {
        assert(typed.subrange(0, 2) =~= mark);
    }
    assert(sequence_items(latex, emoji, typed, range) =~= table_items(latex, typed, range) + (
    if mark.is_prefix_of(typed) {
        table_items(emoji, typed, range)
    } else {
        Seq::empty()
    }));
}

/// In code a sequence is always offered, in a string macro or a command never, and in
/// a plain string unless a single character that is an escape by itself was typed.
pub proof fn law_sequences_yield_to_escapes(t: Seq<Element>, offset: u32, typed: Seq<char>)
    ensures
        ({
            let context = string_context(t, offset);
            &&& context == StringContext::Code ==> !suppressed(t, offset, typed)
            &&& context == StringContext::Verbatim ==> suppressed(t, offset, typed)
            &&& context == StringContext::Plain ==> (suppressed(t, offset, typed) <==> typed.len()
                == 2 && ('0' <= typed[1] <= '9' || "abefnrtv\\'\"?xuU"@.contains(typed[1])))
        }),
{
    reveal_strlit("abefnrtv\\'\"?xuU");
    let all = "abefnrtv\\'\"?xuU"@;
    assert(all.len() == 15);
    assert(all[0] == 'a' && all[1] == 'b' && all[2] == 'e' && all[3] == 'f' && all[4] == 'n' && all[5]
        == 'r' && all[6] == 't' && all[7] == 'v' && all[8] == '\\' && all[9] == '\'' && all[10]
        == '"' && all[11] == '?' && all[12] == 'x' && all[13] == 'u' && all[14] == 'U');
    if typed.len() == 2 {
        let c = typed[1];
        if all.contains(c) {
            let k = choose|k: int| 0 <= k < all.len() && all[k] == c;
            assert(escape_char(c));
        }
        if escape_char(c) && !('0' <= c <= '9') {
            assert(all.contains(c));
        }
    }
}

/// An offset is in the innermost literal around it: a command and a string with a
/// prefix are taken as they stand, another string is plain, and outside both is code.
pub proof fn law_the_innermost_literal_counts(
    t: Seq<Element>,
    offset: u32,
    token: usize,
    k: int,
)
    requires
        start_token(t, offset) == Some(token),
    ensures
        ({
            let nodes = ancestors(t, t[token as int].parent);
            let literal = |node: usize|
                t[node as int].kind == SyntaxKind::CMD_LITERAL || t[node as int].kind
                    == SyntaxKind::STRING_LITERAL;
            &&& (forall|i: int| 0 <= i < nodes.len() ==> !literal(#[trigger] nodes[i]))
                ==> string_context(t, offset) == StringContext::Code
            &&& 0 <= k < nodes.len() && literal(nodes[k]) && (forall|i: int|
                0 <= i < k ==> !literal(#[trigger] nodes[i])) ==> {
                &&& string_context(t, offset) == StringContext::Verbatim <==> t[nodes[k] as int].kind
                    == SyntaxKind::CMD_LITERAL || exists|p: int|
                    nodes[k] < p < t[nodes[k] as int].end && (#[trigger] t[p]).parent == nodes[k]
                        && t[p].kind == SyntaxKind::STRING_PREFIX
                &&& string_context(t, offset) != StringContext::Code
            }
        }),
{
    let nodes = ancestors(t, t[token as int].parent);
    let find = literal_kind(t);
    let literal = |node: usize|
        t[node as int].kind == SyntaxKind::CMD_LITERAL || t[node as int].kind
            == SyntaxKind::STRING_LITERAL;
    if forall|i: int| 0 <= i < nodes.len() ==> !literal(#[trigger] nodes[i]) {
        lemma_no_literal(nodes, find, nodes.len() as int);
        assert(nodes.take(nodes.len() as int) =~= nodes);
    }
    if 0 <= k < nodes.len() && literal(nodes[k]) && (forall|i: int|
        0 <= i < k ==> !literal(#[trigger] nodes[i])) {
        lemma_no_literal(nodes, find, k);
        lemma_first_found_step(nodes, find, k);
        lemma_first_found_stays(nodes, find, k + 1);
        lemma_prefix_before(t, nodes[k] as int, t[nodes[k] as int].end as int);
    }
}

proof fn lemma_no_literal(
    nodes: Seq<usize>,
    find: spec_fn(usize) -> Option<StringContext>,
    n: int,
)
    requires
        0 <= n <= nodes.len(),
        forall|i: int| 0 <= i < n ==> find(#[trigger] nodes[i]) is None,
    ensures
        first_found(nodes.take(n), find) is None,
    decreases n,
{
    if n > 0 {
        lemma_no_literal(nodes, find, n - 1);
        lemma_first_found_step(nodes, find, n - 1);
        assert(find(nodes[n - 1]) is None);
    } else {
        assert(nodes.take(0) =~= Seq::<usize>::empty());
    }
}

proof fn lemma_prefix_before(t: Seq<Element>, node: int, upto: int)
    requires
        0 <= node,
    ensures
        prefix_before(t, node, upto) <==> exists|p: int|
            node < p < upto && (#[trigger] t[p]).parent == node && t[p].kind
                == SyntaxKind::STRING_PREFIX,
    decreases upto,
{
    if !(upto <= node + 1 || upto <= 0) {
        lemma_prefix_before(t, node, upto - 1);
        if prefix_before(t, node, upto - 1) {
            let p = choose|p: int|
                node < p < upto - 1 && (#[trigger] t[p]).parent == node && t[p].kind
                    == SyntaxKind::STRING_PREFIX;
            assert(t[p].parent == node);
        }
        if t[upto - 1].parent == node && t[upto - 1].kind == SyntaxKind::STRING_PREFIX {
            assert(t[upto - 1].parent == node);
        }
    }
}

/// A code point is shown as `U+` and four to six digits in base sixteen that spell it.
pub proof fn law_code_points_are_spelled_out(c: char)
    ensures
        ({
            let text = code_point(c);
            &&& 6 <= text.len() <= 8
            &&& text[0] == 'U' && text[1] == '+'
            &&& digits_value(text.skip(2)) == c as u32
            &&& text.len() > 6 ==> text[2] != '0'
        }),
{
    reveal_strlit("U+");
    let n = c as u32 as nat;
    let width: nat = if n < 0x10000 {
        4
    } else if n < 0x100000 {
        5
    } else {
        6
    };
    assert(n < 0x110000);
    assert(power_of_sixteen(3) == 0x1000 && power_of_sixteen(4) == 0x10000 && power_of_sixteen(5)
        == 0x100000 && power_of_sixteen(6) == 0x1000000) by {
        reveal_with_fuel(power_of_sixteen, 8);
    }
    lemma_upper_digits(n, width);
    assert(code_point(c).skip(2) =~= upper_digits(n, width));
    assert(code_point(c)[2] == upper_digits(n, width)[0]);
}

/// The value of a digit in base sixteen.
pub open spec fn digit_value(c: char) -> nat {
    if '0' <= c <= '9' {
        (c as u32 - '0' as u32) as nat
    } else if 'A' <= c <= 'F' {
        (c as u32 - 'A' as u32 + 10) as nat
    } else {
        16
    }
}

/// The number that digits in base sixteen spell.
pub open spec fn digits_value(digits: Seq<char>) -> nat
    decreases digits.len(),
{
    if digits.len() == 0 {
        0
    } else {
        digits_value(digits.drop_last()) * 16 + digit_value(digits.last())
    }
}

/// The power of sixteen.
pub open spec fn power_of_sixteen(n: nat) -> nat
    decreases n,
{
    if n == 0 {
        1
    } else {
        16 * power_of_sixteen((n - 1) as nat)
    }
}

proof fn lemma_upper_digits(n: nat, width: nat)
    requires
        width > 0,
        n < power_of_sixteen(width),
    ensures
        upper_digits(n, width).len() == width,
        digits_value(upper_digits(n, width)) == n,
        n >= power_of_sixteen((width - 1) as nat) ==> upper_digits(n, width)[0] != '0',
    decreases width,
{
    reveal_with_fuel(power_of_sixteen, 7);
    let digits = upper_digits(n, width);
    let rest = upper_digits(n / 16, (width - 1) as nat);
    assert(digits == rest.push(upper_digit((n % 16) as int)));
    assert(digits.drop_last() =~= rest);
    assert(digit_value(upper_digit((n % 16) as int)) == n % 16);
    if width == 1 {
        assert(rest.len() == 0);
        reveal_with_fuel(digits_value, 2);
    } else {
        assert(n / 16 < power_of_sixteen((width - 1) as nat)) by (nonlinear_arith)
            requires
                n < 16 * power_of_sixteen((width - 1) as nat),
        ;
        lemma_upper_digits(n / 16, (width - 1) as nat);
        assert(digits[0] == rest[0]);
        if n >= power_of_sixteen((width - 1) as nat) {
            assert(n / 16 >= power_of_sixteen((width - 2) as nat)) by (nonlinear_arith)
                requires
                    n >= 16 * power_of_sixteen((width - 2) as nat),
            ;
        }
    }
}

/// Filling in the details of an item shows the first thing of its name that its module
/// defines: a macro where the name has a sigil, and else a function by its first method,
/// a type by its definition, or a constant by its value; and the docstring of that one.
/// One without a docstring leaves the item as it is.
pub proof fn law_resolving_shows_what_the_module_defines(
    item: ItemView,
    library: Library,
    package: Seq<char>,
    path: Seq<Seq<char>>,
    name: Seq<char>,
    module: ModuleIndex,
    i: int,
)
    requires
        item.data is Some,
        item.data->0.module == seq![package] + path,
        item.data->0.name == name,
        package_of(library, package) is Some,
        submodule(package_of(library, package)->0.root, path) == Some(module),
    ensures
        ({
            let shown = resolved_item(item, library);
            let sigil = name.len() > 0 && name[0] == '@';
            let no_function = nothing_named(module.functions@, name);
            let no_type = nothing_named(module.types@, name);
            &&& sigil && first_named(module.macros@, name, i) ==> {
                let doc = module.macros@[i].doc;
                &&& doc is Some ==> shown.documentation == Some(doc->0@) && shown.detail
                    == item.detail
                &&& doc is None ==> shown == item
            }
            &&& !sigil && first_named(module.functions@, name, i) ==> {
                let group = module.functions@[i];
                &&& group.doc is Some ==> shown.documentation == Some(group.doc->0@)
                &&& group.doc is Some && group.methods.len() > 0 ==> shown.detail == Some(
                    name + method_text(group.methods@[0]),
                )
                &&& group.doc is None ==> shown == item
            }
            &&& !sigil && no_function && first_named(module.types@, name, i) ==> {
                let def = module.types@[i];
                &&& def.doc is Some ==> shown.documentation == Some(def.doc->0@) && shown.detail
                    == Some(type_line(def))
                &&& def.doc is None ==> shown == item
            }
            &&& !sigil && no_function && no_type && first_named(module.consts@, name, i) ==> {
                let def = module.consts@[i];
                &&& def.doc is Some ==> shown.documentation == Some(def.doc->0@)
                &&& def.doc is Some && def.value_repr is Some ==> shown.detail == Some(
                    name + " = "@ + def.value_repr->0@,
                )
                &&& def.doc is None ==> shown == item
            }
        }),
{
    let whole = seq![package] + path;
    assert(whole[0] == package);
    assert(whole.skip(1) =~= path);
    if first_named(module.macros@, name, i) {
        lemma_first_named(module.macros@, name, i);
    }
    if first_named(module.functions@, name, i) {
        lemma_first_named(module.functions@, name, i);
        assert(module.functions@[i].named() == name);
    }
    if nothing_named(module.functions@, name) {
        lemma_nothing_named(module.functions@, name);
    }
    if first_named(module.types@, name, i) {
        lemma_first_named(module.types@, name, i);
    }
    if nothing_named(module.types@, name) {
        lemma_nothing_named(module.types@, name);
    }
    if first_named(module.consts@, name, i) {
        lemma_first_named(module.consts@, name, i);
    }
}

/// In the target of a `@ref` link the label of every anchor is offered as a reference,
/// and nowhere else.
pub proof fn law_anchors_are_offered_in_references(docs: Seq<DocText>, offset: u32, d: int, i: int)
    ensures
        ref_under(docs, offset) is None ==> reference_items(docs, offset).len() == 0,
        ref_under(docs, offset) is Some && 0 <= d < docs.len() && 0 <= i < docs[d].anchors.len()
            ==> exists|k: int|
            0 <= k < reference_items(docs, offset).len() && (#[trigger] reference_items(
                docs,
                offset,
            )[k]).label == docs[d].anchors@[i].label@ && reference_items(docs, offset)[k].kind
                == CompletionItemKind::Reference,
{
    law_labels_are_offered_once(docs);
    if ref_under(docs, offset) is Some && 0 <= d < docs.len() && 0 <= i < docs[d].anchors.len() {
        let labels = labels_in(docs);
        let label = docs[d].anchors@[i].label@;
        let k = choose|k: int| 0 <= k < labels.len() && labels[k] == label;
        assert(reference_items(docs, offset)[k].label == label);
    }
}

} // verus!
