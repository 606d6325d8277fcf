//! Building, comparing and taking apart text.

use vstd::prelude::*;
use vstd::utf8::{char_is_scalar, encode_scalar, encode_utf8, encode_utf8_decode_utf8};

use crate::chars::char_is_whitespace;

verus! {

/// `String::push`: appends the one character to the end of the text.
pub assume_specification[ std::string::String::push ](text: &mut std::string::String, c: char)
    ensures
        final(text)@ == old(text)@.push(c),
;

/// Whether two texts hold the same characters.
pub fn same_text(a: &str, b: &str) -> (r: bool)
    ensures
        r == (a@ == b@),
{
    let x = a.as_bytes();
    let y = b.as_bytes();
    if x.len() != y.len() {
        return false;
    }
    let mut i: usize = 0;
    while i < x.len()
        invariant
            x.len() == y.len(),
            i <= x.len(),
            x@ == encode_utf8(a@),
            y@ == encode_utf8(b@),
            forall|j: int| 0 <= j < i ==> x@[j] == y@[j],
        decreases x.len() - i,
    {
        if x[i] != y[i] {
            return false;
        }
        i = i + 1;
    }
    proof {
        assert(x@ =~= y@);
        encode_utf8_decode_utf8(a@);
        encode_utf8_decode_utf8(b@);
    }
    true
}

/// The characters of a text, in order.
pub fn chars_of(text: &str) -> (r: Vec<char>)
    ensures
        r@ == text@,
{
    let mut out: Vec<char> = Vec::new();
    for c in it: text.chars()
        invariant
            it.seq() == text@,
            out@ == text@.take(it.index()),
    {
        out.push(c);
        proof {
            assert(text@.take(it.index() + 1) =~= text@.take(it.index()).push(c));
        }
    }
    proof {
        assert(text@.take(text@.len() as int) =~= text@);
    }
    out
}

/// The text made of the characters `from..to` of `chars`.
pub fn text_between(chars: &Vec<char>, from: usize, to: usize) -> (r: String)
    requires
        from <= to <= chars.len(),
    ensures
        r@ == chars@.subrange(from as int, to as int),
{
    let mut out = String::new();
    let mut i: usize = from;
    while i < to
        invariant
            from <= i <= to <= chars.len(),
            out@ == chars@.subrange(from as int, i as int),
        decreases to - i,
    {
        out.push(chars[i]);
        i = i + 1;
        proof {
            assert(chars@.subrange(from as int, i as int) =~= chars@.subrange(from as int, i - 1).push(chars@[i - 1]));
        }
    }
    proof {
        assert(chars@.subrange(from as int, from as int) =~= Seq::<char>::empty());
    }
    out
}

/// `a` followed by `b`.
pub fn cat(a: &str, b: &str) -> (r: String)
    ensures
        r@ == a@ + b@,
{
    let mut out = a.to_owned();
    out.append(b);
    out
}

/// The length in bytes of the UTF-8 form of one character.
pub open spec fn utf8_width(c: char) -> nat {
    if (c as u32) < 0x80 {
        1
    } else if (c as u32) < 0x800 {
        2
    } else if (c as u32) < 0x10000 {
        3
    } else {
        4
    }
}

/// The length in bytes of the UTF-8 form of a text.
pub open spec fn byte_len(s: Seq<char>) -> nat
    decreases s.len(),
{
    if s.len() == 0 {
        0
    } else {
        byte_len(s.drop_last()) + utf8_width(s.last())
    }
}

/// The byte length of a text is the sum of the byte lengths of two parts.
pub proof fn lemma_byte_len_concat(a: Seq<char>, b: Seq<char>)
    ensures
        byte_len(a + b) == byte_len(a) + byte_len(b),
    decreases b.len(),
{
    if b.len() == 0 {
        assert(a + b =~= a);
    } else {
        assert((a + b).drop_last() =~= a + b.drop_last());
        assert((a + b).last() == b.last());
        lemma_byte_len_concat(a, b.drop_last());
    }
}

/// A longer prefix is at least as many bytes long, and one character more is
/// at least one byte more.
pub proof fn lemma_byte_len_monotone(s: Seq<char>, i: int, j: int)
    requires
        0 <= i <= j <= s.len(),
    ensures
        byte_len(s.take(i)) + (j - i) <= byte_len(s.take(j)) <= byte_len(s),
    decreases s.len() - i,
{
    assert(s.take(j) + s.skip(j) =~= s);
    lemma_byte_len_concat(s.take(j), s.skip(j));
    if i < j {
        assert(s.take(i + 1).drop_last() =~= s.take(i));
        lemma_byte_len_monotone(s, i + 1, j);
    }
}

/// The byte length of a text is the length of its UTF-8 encoding.
pub proof fn lemma_byte_len_is_utf8(s: Seq<char>)
    ensures
        byte_len(s) == encode_utf8(s).len(),
    decreases s.len(),
{
    if s.len() > 0 {
        lemma_byte_len_is_utf8(s.drop_first());
        assert(s =~= seq![s[0]] + s.drop_first());
        lemma_byte_len_concat(seq![s[0]], s.drop_first());
        assert(seq![s[0]].drop_last() =~= Seq::<char>::empty());
        assert(byte_len(seq![s[0]]) == utf8_width(s[0])) by {
            reveal_with_fuel(byte_len, 2);
        }
        let c = s[0];
        char_is_scalar(c);
        assert(encode_scalar(c as u32).len() == utf8_width(c));
        assert(encode_utf8(s) == encode_scalar(s[0] as u32) + encode_utf8(s.drop_first()));
    }
}

/// The length of `text` in bytes.
pub fn byte_length(text: &str) -> (r: usize)
    ensures
        r == byte_len(text@),
{
    proof {
        lemma_byte_len_is_utf8(text@);
    }
    text.as_bytes().len()
}

/// The pieces of a text put one behind the other.
pub open spec fn joined(pieces: Seq<Seq<char>>) -> Seq<char>
    decreases pieces.len(),
{
    if pieces.len() == 0 {
        Seq::empty()
    } else {
        joined(pieces.drop_last()) + pieces.last()
    }
}

/// Joining pieces joins the texts of any two parts of them.
pub proof fn lemma_joined_split(pieces: Seq<Seq<char>>, i: int, j: int)
    requires
        0 <= i <= j <= pieces.len(),
    ensures
        joined(pieces.take(j)) == joined(pieces.take(i)) + joined(pieces.subrange(i, j)),
    decreases j - i,
{
    if i == j {
        assert(pieces.subrange(i, j) =~= Seq::<Seq<char>>::empty());
        assert(joined(pieces.take(j)) =~= joined(pieces.take(i)) + joined(pieces.subrange(i, j)));
    } else {
        lemma_joined_split(pieces, i, j - 1);
        assert(pieces.take(j).drop_last() =~= pieces.take(j - 1));
        assert(pieces.subrange(i, j).drop_last() =~= pieces.subrange(i, j - 1));
        assert(joined(pieces.take(j)) =~= joined(pieces.take(i)) + joined(pieces.subrange(i, j)));
    }
}

/// Appends the pieces `from..to` to `out`.
pub fn append_pieces(out: &mut String, pieces: &Vec<String>, from: usize, to: usize)
    requires
        from <= to <= pieces.len(),
    ensures
        final(out)@ == old(out)@ + joined(pieces.deep_view().subrange(from as int, to as int)),
{
    let ghost all = pieces.deep_view();
    let ghost before = out@;
    let mut i: usize = from;
    proof {
        assert(all.subrange(from as int, from as int) =~= Seq::<Seq<char>>::empty());
        assert(before + joined(all.subrange(from as int, from as int)) =~= before);
    }
    while i < to
        invariant
            from <= i <= to <= pieces.len(),
            all == pieces.deep_view(),
            out@ == before + joined(all.subrange(from as int, i as int)),
        decreases to - i,
    {
        out.append(pieces[i].as_str());
        i = i + 1;
        proof {
            assert(all.subrange(from as int, i as int).drop_last() =~= all.subrange(
                from as int,
                i - 1,
            ));
            assert(out@ =~= before + joined(all.subrange(from as int, i as int)));
        }
    }
}

/// A text cut at every `sep`; the pieces may be empty.
pub open spec fn pieces(s: Seq<char>, sep: char) -> Seq<Seq<char>>
    decreases s.len(),
{
    if s.len() == 0 {
        seq![Seq::<char>::empty()]
    } else {
        let before = pieces(s.drop_last(), sep);
        if s.last() == sep {
            before.push(Seq::empty())
        } else {
            before.drop_last().push(before.last().push(s.last()))
        }
    }
}

/// A cut text has at least one piece, and no piece holds the separator.
pub proof fn lemma_pieces(s: Seq<char>, sep: char)
    ensures
        pieces(s, sep).len() > 0,
        forall|i: int| 0 <= i < pieces(s, sep).len() ==> !(#[trigger] pieces(s, sep)[i]).contains(sep),
    decreases s.len(),
{
    if s.len() > 0 {
        lemma_pieces(s.drop_last(), sep);
        let before = pieces(s.drop_last(), sep);
        let r = pieces(s, sep);
        assert forall|i: int| 0 <= i < r.len() implies !(#[trigger] r[i]).contains(sep) by {
            if i < r.len() - 1 {
                assert(r[i] == before[i]);
            } else if s.last() != sep {
                let p = before[before.len() - 1];
                assert(r[i] == p.push(s.last()));
                if r[i].contains(sep) {
                    let k = choose|k: int| 0 <= k < r[i].len() && r[i][k] == sep;
                    assert(p[k] == sep);
                }
            }
        }
    }
}

/// Cuts `text` at every `sep`.
pub fn split_on(text: &str, sep: char) -> (r: Vec<String>)
    ensures
        r.deep_view() == pieces(text@, sep),
{
    let chars = chars_of(text);
    let mut out: Vec<String> = Vec::new();
    let mut from: usize = 0;
    let mut i: usize = 0;
    proof {
        assert(text@.take(0) =~= Seq::<char>::empty());
        assert(out.deep_view().push(text@.subrange(0, 0)) =~= pieces(text@.take(0), sep));
    }
    while i < chars.len()
        invariant
            from <= i <= chars.len(),
            chars@ == text@,
            pieces(text@.take(i as int), sep) == out.deep_view().push(
                text@.subrange(from as int, i as int),
            ),
        decreases chars.len() - i,
    {
        let ghost before = out.deep_view();
        proof {
            assert(text@.take(i + 1).drop_last() =~= text@.take(i as int));
            assert(before.push(text@.subrange(from as int, i as int)).drop_last() =~= before);
        }
        if chars[i] == sep {
            out.push(text_between(&chars, from, i));
            from = i + 1;
            proof {
                assert(out.deep_view() =~= pieces(text@.take(i as int), sep));
                assert(text@.subrange(i + 1, i + 1) =~= Seq::<char>::empty());
            }
        } else {
            proof {
                assert(text@.subrange(from as int, i + 1) =~= text@.subrange(from as int, i as int).push(text@[i as int]));
            }
        }
        i = i + 1;
    }
    let ghost before = out.deep_view();
    out.push(text_between(&chars, from, chars.len()));
    proof {
        assert(text@.take(i as int) =~= text@);
        assert(out.deep_view() =~= before.push(text@.subrange(from as int, i as int)));
    }
    out
}

/// Pieces with a separator between each two.
pub open spec fn separated(parts: Seq<Seq<char>>, sep: Seq<char>) -> Seq<char>
    decreases parts.len(),
{
    if parts.len() == 0 {
        Seq::empty()
    } else if parts.len() == 1 {
        parts[0]
    } else {
        separated(parts.drop_last(), sep) + sep + parts.last()
    }
}

/// The parts with `sep` between each two.
pub fn join_with(parts: &Vec<String>, sep: &str) -> (r: String)
    ensures
        r@ == separated(parts.deep_view(), sep@),
{
    let ghost all = parts.deep_view();
    let mut out = String::new();
    let mut i: usize = 0;
    proof {
        assert(all.take(0) =~= Seq::<Seq<char>>::empty());
    }
    while i < parts.len()
        invariant
            i <= parts.len(),
            all == parts.deep_view(),
            out@ == separated(all.take(i as int), sep@),
        decreases parts.len() - i,
    {
        if i > 0 {
            out.append(sep);
        }
        out.append(parts[i].as_str());
        i = i + 1;
        proof {
            assert(all.take(i as int).drop_last() =~= all.take(i - 1));
            if i == 1 {
                assert(out@ =~= all[0]);
            }
        }
    }
    proof {
        assert(all.take(i as int) =~= all);
    }
    out
}

/// Cutting what was put together gives back the parts, where none of them holds
/// the separator.
pub proof fn lemma_pieces_separated(parts: Seq<Seq<char>>, sep: char)
    requires
        parts.len() > 0,
        forall|i: int| 0 <= i < parts.len() ==> !(#[trigger] parts[i]).contains(sep),
    ensures
        pieces(separated(parts, seq![sep]), sep) == parts,
    decreases parts.len(),
{
    if parts.len() == 1 {
        lemma_pieces_grow(Seq::empty(), parts[0], sep);
        assert(Seq::<char>::empty() + parts[0] =~= parts[0]);
        assert(pieces(Seq::<char>::empty(), sep) =~= seq![Seq::<char>::empty()]);
        assert(pieces(parts[0], sep) =~= parts);
    } else {
        let front = parts.drop_last();
        assert forall|i: int| 0 <= i < front.len() implies !(#[trigger] front[i]).contains(sep) by {
            assert(front[i] == parts[i]);
        }
        lemma_pieces_separated(front, sep);
        let head = separated(front, seq![sep]) + seq![sep];
        assert(head.drop_last() =~= separated(front, seq![sep]));
        assert(pieces(head, sep) == front.push(Seq::empty()));
        lemma_pieces_grow(head, parts.last(), sep);
        assert(pieces(separated(parts, seq![sep]), sep) =~= parts);
    }
}

/// Cutting a text at a separator it holds cuts both sides of it.
pub proof fn lemma_pieces_concat(a: Seq<char>, b: Seq<char>, sep: char)
    ensures
        pieces(a + seq![sep] + b, sep) == pieces(a, sep) + pieces(b, sep),
    decreases b.len(),
{
    lemma_pieces(b, sep);
    if b.len() == 0 {
        let head = a + seq![sep];
        assert(a + seq![sep] + b =~= head);
        assert(head.drop_last() =~= a);
        assert(pieces(head, sep) =~= pieces(a, sep) + pieces(b, sep));
    } else {
        let c = b.drop_last();
        lemma_pieces(c, sep);
        lemma_pieces_concat(a, c, sep);
        let whole = a + seq![sep] + b;
        assert(whole.drop_last() =~= a + seq![sep] + c);
        assert(pieces(whole, sep) =~= pieces(a, sep) + pieces(b, sep));
    }
}

/// Text without the separator only lengthens the last piece.
proof fn lemma_pieces_grow(head: Seq<char>, tail: Seq<char>, sep: char)
    requires
        !tail.contains(sep),
    ensures
        pieces(head + tail, sep) == pieces(head, sep).drop_last().push(
            pieces(head, sep).last() + tail,
        ),
    decreases tail.len(),
{
    lemma_pieces(head, sep);
    if tail.len() == 0 {
        assert(head + tail =~= head);
        assert(pieces(head, sep).last() + tail =~= pieces(head, sep).last());
        assert(pieces(head, sep) =~= pieces(head, sep).drop_last().push(pieces(head, sep).last()));
    } else {
        let t = tail.drop_last();
        assert(!t.contains(sep)) by {
            if t.contains(sep) {
                let k = choose|k: int| 0 <= k < t.len() && t[k] == sep;
                assert(tail[k] == sep);
            }
        }
        assert(tail.last() != sep) by {
            assert(tail[tail.len() - 1] == tail.last());
        }
        lemma_pieces_grow(head, t, sep);
        assert((head + tail).drop_last() =~= head + t);
        let p = pieces(head, sep);
        assert(pieces(head + tail, sep) =~= p.drop_last().push((p.last() + t).push(tail.last())));
        assert((p.last() + t).push(tail.last()) =~= p.last() + tail);
    }
}

/// Whether `text` begins with `prefix`.
pub fn starts_with(text: &str, prefix: &str) -> (r: bool)
    ensures
        r == prefix@.is_prefix_of(text@),
{
    let a = chars_of(text);
    let b = chars_of(prefix);
    if b.len() > a.len() {
        return false;
    }
    let mut i: usize = 0;
    while i < b.len()
        invariant
            a@ == text@,
            b@ == prefix@,
            i <= b.len() <= a.len(),
            forall|j: int| 0 <= j < i ==> a@[j] == b@[j],
        decreases b.len() - i,
    {
        if a[i] != b[i] {
            return false;
        }
        i = i + 1;
    }
    proof {
        assert(text@.subrange(0, b.len() as int) =~= prefix@);
    }
    true
}

/// A copy of a list of texts.
pub fn copy_texts(texts: &Vec<String>) -> (r: Vec<String>)
    ensures
        r.deep_view() == texts.deep_view(),
{
    let mut out: Vec<String> = Vec::new();
    let mut i: usize = 0;
    while i < texts.len()
        invariant
            i <= texts.len(),
            out.len() == i,
            forall|k: int| 0 <= k < i ==> #[trigger] out@[k]@ == texts@[k]@,
        decreases texts.len() - i,
    {
        out.push(texts[i].clone());
        i = i + 1;
    }
    proof {
        assert(out.deep_view() =~= texts.deep_view());
    }
    out
}

/// Whether two lists hold the same texts in the same order.
pub fn same_texts(a: &Vec<String>, b: &Vec<String>) -> (r: bool)
    ensures
        r == (a.deep_view() == b.deep_view()),
{
    proof {
        if a.len() != b.len() {
            assert(a.deep_view().len() != b.deep_view().len());
        }
    }
    if a.len() != b.len() {
        return false;
    }
    let mut i: usize = 0;
    while i < a.len()
        invariant
            i <= a.len(),
            a.len() == b.len(),
            forall|k: int| 0 <= k < i ==> #[trigger] a@[k]@ == b@[k]@,
        decreases a.len() - i,
    {
        if !same_text(a[i].as_str(), b[i].as_str()) {
            proof {
                assert(a.deep_view()[i as int] != b.deep_view()[i as int]);
            }
            return false;
        }
        i = i + 1;
    }
    proof {
        assert(a.deep_view() =~= b.deep_view());
    }
    true
}

/// Whether a list holds a text.
pub fn holds_text(texts: &Vec<String>, wanted: &str) -> (r: bool)
    ensures
        r == texts.deep_view().contains(wanted@),
{
    let mut i: usize = 0;
    while i < texts.len()
        invariant
            i <= texts.len(),
            forall|k: int| 0 <= k < i ==> #[trigger] texts@[k]@ != wanted@,
        decreases texts.len() - i,
    {
        if same_text(texts[i].as_str(), wanted) {
            proof {
                assert(texts.deep_view()[i as int] == wanted@);
            }
            return true;
        }
        i = i + 1;
    }
    false
}

/// The decimal digit of a value below ten.
pub open spec fn decimal_digit(n: nat) -> char {
    (('0' as u32) + n) as char
}

/// A number in decimal digits.
pub open spec fn decimal(n: nat) -> Seq<char>
    decreases n,
{
    if n < 10 {
        seq![decimal_digit(n)]
    } else {
        decimal(n / 10).push(decimal_digit(n % 10))
    }
}

/// The number that decimal digits spell.
pub open spec fn decimal_value(digits: Seq<char>) -> int
    decreases digits.len(),
{
    if digits.len() == 0 {
        0
    } else {
        decimal_value(digits.drop_last()) * 10 + (digits.last() as u32 - '0' as u32)
    }
}

/// The digits of a number spell it.
pub proof fn lemma_decimal_value(n: nat)
    ensures
        decimal_value(decimal(n)) == n,
    decreases n,
{
    if n < 10 {
        let digits = decimal(n);
        assert(digits.drop_last() =~= Seq::<char>::empty());
        assert(digits.last() == decimal_digit(n));
        assert(decimal_value(digits.drop_last()) == 0);
    } else {
        lemma_decimal_value(n / 10);
        let digits = decimal(n);
        assert(digits.drop_last() =~= decimal(n / 10));
        assert(digits.last() == decimal_digit(n % 10));
    }
}

fn digit_char(n: u64) -> (r: char)
    requires
        n < 10,
    ensures
        r == decimal_digit(n as nat),
{
    match n {
        0 => '0',
        1 => '1',
        2 => '2',
        3 => '3',
        4 => '4',
        5 => '5',
        6 => '6',
        7 => '7',
        8 => '8',
        _ => '9',
    }
}

/// `n` in decimal digits.
pub fn decimal_text(n: u64) -> (r: String)
    ensures
        r@ == decimal(n as nat),
    decreases n,
{
    if n < 10 {
        let mut out = String::new();
        out.push(digit_char(n));
        proof {
            assert(out@ =~= decimal(n as nat));
        }
        out
    } else {
        let mut out = decimal_text(n / 10);
        out.push(digit_char(n % 10));
        out
    }
}

/// A text without the whitespace in front.
pub open spec fn trimmed_front(s: Seq<char>) -> Seq<char>
    decreases s.len(),
{
    if s.len() > 0 && char_is_whitespace(s[0]) {
        trimmed_front(s.drop_first())
    } else {
        s
    }
}

/// A text without the whitespace at the end.
pub open spec fn trimmed_back(s: Seq<char>) -> Seq<char>
    decreases s.len(),
{
    if s.len() > 0 && char_is_whitespace(s.last()) {
        trimmed_back(s.drop_last())
    } else {
        s
    }
}

/// A text without the whitespace around it.
pub open spec fn trimmed(s: Seq<char>) -> Seq<char> {
    trimmed_back(trimmed_front(s))
}

/// `text` without the whitespace around it.
pub fn trim(text: &str) -> (r: String)
    ensures
        r@ == trimmed(text@),
{
    let chars = chars_of(text);
    let mut from: usize = 0;
    proof {
        assert(text@.skip(0) =~= text@);
    }
    while from < chars.len() && chars[from].is_whitespace()
        invariant
            chars@ == text@,
            from <= chars.len(),
            trimmed_front(text@) == trimmed_front(text@.skip(from as int)),
        decreases chars.len() - from,
    {
        proof {
            assert(text@.skip(from as int)[0] == text@[from as int]);
            assert(text@.skip(from as int).drop_first() =~= text@.skip(from + 1));
        }
        from = from + 1;
    }
    proof {
        if from < text@.len() {
            assert(text@.skip(from as int)[0] == text@[from as int]);
        }
    }
    let mut to: usize = chars.len();
    proof {
        assert(text@.subrange(from as int, to as int) =~= text@.skip(from as int));
    }
    while to > from && chars[to - 1].is_whitespace()
        invariant
            chars@ == text@,
            from <= to <= chars.len(),
            trimmed(text@) == trimmed_back(text@.subrange(from as int, to as int)),
        decreases to,
    {
        proof {
            let s = text@.subrange(from as int, to as int);
            assert(s.last() == text@[to - 1]);
            assert(s.drop_last() =~= text@.subrange(from as int, to - 1));
        }
        to = to - 1;
    }
    proof {
        let s = text@.subrange(from as int, to as int);
        if s.len() > 0 {
            assert(s.last() == text@[to - 1]);
        }
    }
    text_between(&chars, from, to)
}

/// What stands before part `k` of a text that is put together.
pub open spec fn before_part(parts: Seq<Seq<char>>, sep: Seq<char>, k: int) -> Seq<char> {
    if k <= 0 {
        Seq::empty()
    } else {
        separated(parts.take(k), sep) + sep
    }
}

/// What stands behind part `k` of a text that is put together.
pub open spec fn behind_part(parts: Seq<Seq<char>>, sep: Seq<char>, k: int) -> Seq<char> {
    if k >= parts.len() - 1 {
        Seq::empty()
    } else {
        sep + separated(parts.skip(k + 1), sep)
    }
}

/// A text that is put together holds each part whole, between what is before it and
/// what is behind it.
pub proof fn law_parts_stand_whole(parts: Seq<Seq<char>>, sep: Seq<char>, k: int)
    requires
        0 <= k < parts.len(),
    ensures
        separated(parts, sep) == before_part(parts, sep, k) + parts[k] + behind_part(parts, sep, k),
    decreases parts.len(),
{
    let n = parts.len() as int;
    if n == 1 {
        assert(separated(parts, sep) =~= before_part(parts, sep, k) + parts[k] + behind_part(
            parts,
            sep,
            k,
        ));
    } else {
        let front = parts.drop_last();
        if k == n - 1 {
            assert(parts.take(k) =~= front);
            assert(separated(parts, sep) =~= before_part(parts, sep, k) + parts[k] + behind_part(
                parts,
                sep,
                k,
            ));
        } else {
            law_parts_stand_whole(front, sep, k);
            assert(front.take(k) =~= parts.take(k));
            let rest = parts.skip(k + 1);
            assert(rest.last() == parts.last());
            assert(rest.drop_last() =~= front.skip(k + 1));
            if k == n - 2 {
                assert(rest =~= seq![parts.last()]);
                assert(separated(rest, sep) == parts.last());
            }
            assert(separated(parts, sep) =~= before_part(parts, sep, k) + parts[k] + behind_part(
                parts,
                sep,
                k,
            ));
        }
    }
}

/// Texts that are put together of parts of which one alone differs differ.
pub proof fn law_parts_tell_apart(
    a: Seq<Seq<char>>,
    b: Seq<Seq<char>>,
    sep: Seq<char>,
    k: int,
)
    requires
        a.len() == b.len(),
        0 <= k < a.len(),
        forall|i: int| 0 <= i < a.len() && i != k ==> a[i] == b[i],
        a[k] != b[k],
    ensures
        separated(a, sep) != separated(b, sep),
{
    law_parts_stand_whole(a, sep, k);
    law_parts_stand_whole(b, sep, k);
    assert(a.take(k) =~= b.take(k));
    assert(a.skip(k + 1) =~= b.skip(k + 1));
    lemma_middle_differs(before_part(a, sep, k), a[k], b[k], behind_part(a, sep, k));
}

/// Two texts that differ still do between the same two others.
pub proof fn lemma_middle_differs(head: Seq<char>, x: Seq<char>, y: Seq<char>, tail: Seq<char>)
    requires
        x != y,
    ensures
        head + x + tail != head + y + tail,
{
    let p = head + x + tail;
    let q = head + y + tail;
    if p == q {
        assert(x.len() == y.len()) by {
            assert(p.len() == q.len());
        }
        assert forall|i: int| 0 <= i < x.len() implies x[i] == y[i] by {
            assert(p[head.len() + i] == x[i]);
            assert(q[head.len() + i] == y[i]);
        }
        assert(x =~= y);
    }
}

/// An empty list puts together to nothing, one part to itself, and each further part
/// follows a separator.
pub proof fn law_parts_follow_separators(parts: Seq<Seq<char>>, part: Seq<char>, sep: Seq<char>)
    ensures
        separated(Seq::empty(), sep).len() == 0,
        separated(seq![part], sep) == part,
        parts.len() > 0 ==> separated(parts.push(part), sep) == separated(parts, sep) + sep + part,
{
    assert(parts.push(part).drop_last() =~= parts);
}

/// What is left of a text without the whitespace around it is the stretch between the
/// first and the last character that are not whitespace; of whitespace alone nothing is
/// left.
pub proof fn law_trimming_takes_whitespace_off(before: Seq<char>, core: Seq<char>, behind: Seq<char>)
    requires
        forall|i: int| 0 <= i < before.len() ==> char_is_whitespace(#[trigger] before[i]),
        forall|i: int| 0 <= i < behind.len() ==> char_is_whitespace(#[trigger] behind[i]),
        core.len() > 0 ==> !char_is_whitespace(core[0]) && !char_is_whitespace(core.last()),
    ensures
        trimmed(before + core + behind) == core,
    decreases before.len() + behind.len(),
{
    let s = before + core + behind;
    if before.len() > 0 {
        assert(s[0] == before[0]);
        let less = before.drop_first();
        assert(s.drop_first() =~= less + core + behind);
        assert forall|i: int| 0 <= i < less.len() implies char_is_whitespace(#[trigger] less[i]) by {
            assert(less[i] == before[i + 1]);
        }
        law_trimming_takes_whitespace_off(less, core, behind);
    } else if core.len() == 0 {
        assert(s =~= behind);
        if behind.len() > 0 {
            let less = behind.drop_first();
            assert forall|i: int| 0 <= i < less.len() implies char_is_whitespace(
                #[trigger] less[i],
            ) by {
                assert(less[i] == behind[i + 1]);
            }
            law_trimming_takes_whitespace_off(before, core, less);
            assert(before + core + less =~= less);
        } else {
            assert(core =~= s);
        }
    } else {
        assert(s[0] == core[0]);
        assert(trimmed_front(s) == s);
        lemma_trimmed_back(core, behind);
        assert(s =~= core + behind);
    }
}

proof fn lemma_trimmed_back(core: Seq<char>, behind: Seq<char>)
    requires
        core.len() > 0 && !char_is_whitespace(core.last()),
        forall|i: int| 0 <= i < behind.len() ==> char_is_whitespace(#[trigger] behind[i]),
    ensures
        trimmed_back(core + behind) == core,
    decreases behind.len(),
{
    let s = core + behind;
    if behind.len() > 0 {
        let less = behind.drop_last();
        assert(s.last() == behind[behind.len() - 1]);
        assert(s.drop_last() =~= core + less);
        assert forall|i: int| 0 <= i < less.len() implies char_is_whitespace(#[trigger] less[i]) by {
            assert(less[i] == behind[i]);
        }
        lemma_trimmed_back(core, less);
    } else {
        assert(s =~= core);
    }
}

} // verus!
