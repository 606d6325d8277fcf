//! Ids that say what an answer holds.
//!
//! A client sends back the id of the answer it has; where the new answer has the
//! same id, nothing needs to be sent again.

use std::collections::hash_map::DefaultHasher;
use std::hash::Hasher;

use vstd::bytes::{spec_u64_to_le_bytes, u64_to_le_bytes};
use vstd::prelude::*;
use vstd::std_specs::hash::DefaultHasherAdditionalSpecFns;

verus! {

/// The lower-case hexadecimal digit of a value below sixteen.
pub open spec fn hex_digit(n: int) -> char {
    if n < 10 {
        (('0' as u32) + n) as char
    } else {
        (('a' as u32) + (n - 10)) as char
    }
}

/// The last `width` hexadecimal digits of a number, the most significant first.
pub open spec fn hex_digits(n: nat, width: nat) -> Seq<char>
    decreases width,
{
    if width == 0 {
        Seq::empty()
    } else {
        hex_digits(n / 16, (width - 1) as nat).push(hex_digit((n % 16) as int))
    }
}

fn hex_char(n: u64) -> (r: char)
    requires
        n < 16,
    ensures
        r == hex_digit(n as int),
{
    match n {
        0 => '0',
        1 => '1',
        2 => '2',
        3 => '3',
        4 => '4',
        5 => '5',
        6 => '6',
        7 => '7',
        8 => '8',
        9 => '9',
        10 => 'a',
        11 => 'b',
        12 => 'c',
        13 => 'd',
        14 => 'e',
        _ => 'f',
    }
}

/// The last `width` hexadecimal digits of `n`.
pub fn hex(n: u64, width: u32) -> (r: String)
    ensures
        r@ == hex_digits(n as nat, width as nat),
    decreases width,
{
    if width == 0 {
        String::new()
    } else {
        let mut out = hex(n / 16, width - 1);
        out.push(hex_char(n % 16));
        out
    }
}

/// What is hashed of a serialized value: its length and its bytes, or a marker
/// where it could not be serialized.
pub open spec fn hashed(json: Option<Seq<u8>>) -> Seq<Seq<u8>> {
    match json {
        Some(bytes) => seq![spec_u64_to_le_bytes(bytes.len() as u64), bytes],
        None => seq![spec_u64_to_le_bytes(u64::MAX)],
    }
}

/// The id of a serialized value: sixteen hexadecimal digits of its hash.
pub open spec fn content_id(json: Option<Seq<u8>>) -> Seq<char> {
    hex_digits(DefaultHasher::spec_finish(hashed(json)) as nat, 16)
}

/// The id of a value, given its serialization, where it has one.
pub fn content_hash(json: Option<&Vec<u8>>) -> (r: String)
    ensures
        r@ == content_id(
            match json {
                Some(bytes) => Some(bytes@),
                None => None,
            },
        ),
        r@.len() == 16,
{
    let mut hasher = DefaultHasher::new();
    match json {
        Some(bytes) => {
            let length = u64_to_le_bytes(bytes.len() as u64);
            hasher.write(length.as_slice());
            hasher.write(bytes.as_slice());
            proof {
                assert(hasher@ =~= hashed(Some(bytes@)));
            }
        },
        None => {
            let marker = u64_to_le_bytes(u64::MAX);
            hasher.write(marker.as_slice());
            proof {
                assert(hasher@ =~= hashed(None));
            }
        },
    }
    proof {
        lemma_hex_len(hasher@, 16);
    }
    hex(hasher.finish(), 16)
}

proof fn lemma_hex_len(written: Seq<Seq<u8>>, width: nat)
    ensures
        hex_digits(DefaultHasher::spec_finish(written) as nat, width).len() == width,
{
    lemma_hex_digits_len(DefaultHasher::spec_finish(written) as nat, width);
}

proof fn lemma_hex_digits_len(n: nat, width: nat)
    ensures
        hex_digits(n, width).len() == width,
    decreases width,
{
    if width > 0 {
        lemma_hex_digits_len(n / 16, (width - 1) as nat);
    }
}

/// Numbers that differ in one of their last digits have different digits, so two values
/// whose hashes differ have different ids.
pub proof fn law_digits_tell_numbers_apart(a: nat, b: nat, width: nat)
    requires
        hex_digits(a, width) == hex_digits(b, width),
        a < digits_reach(width),
        b < digits_reach(width),
    ensures
        a == b,
    decreases width,
{
    if width > 0 {
        let less = (width - 1) as nat;
        let x = hex_digits(a / 16, less);
        let y = hex_digits(b / 16, less);
        let da = hex_digit((a % 16) as int);
        let db = hex_digit((b % 16) as int);
        assert(x.push(da).drop_last() =~= x);
        assert(y.push(db).drop_last() =~= y);
        assert(x.push(da).last() == da);
        assert(y.push(db).last() == db);
        assert(da == db);
        assert(a % 16 == b % 16);
        assert(a / 16 < digits_reach(less)) by (nonlinear_arith)
            requires
                a < 16 * digits_reach(less),
        ;
        assert(b / 16 < digits_reach(less)) by (nonlinear_arith)
            requires
                b < 16 * digits_reach(less),
        ;
        law_digits_tell_numbers_apart(a / 16, b / 16, less);
        assert(a == 16 * (a / 16) + a % 16);
        assert(b == 16 * (b / 16) + b % 16);
    }
}

/// How many numbers a number of hexadecimal digits can write.
pub open spec fn digits_reach(width: nat) -> nat
    decreases width,
{
    if width == 0 {
        1
    } else {
        16 * digits_reach((width - 1) as nat)
    }
}

} // verus!
