//! Identifiers: 128-bit UUIDs, printed in the hyphenated form.

use vstd::prelude::*;
use crate::text::{ascii_lower, is_digit};

verus! {

/// A universally unique identifier, as one big-endian number.
#[derive(Clone, Copy, Debug, PartialEq, Eq, Structural, Hash)]
pub struct Uuid {
    pub bits: u128,
}

/// Sixteen to the power of `n`.
pub open spec fn pow16(n: nat) -> nat
    decreases n,
{
    if n == 0 {
        1
    } else {
        16 * pow16((n - 1) as nat)
    }
}

/// The small hexadecimal digit that stands for `d`.
pub open spec fn hex_digit(d: nat) -> char {
    if d < 10 {
        (48 + d) as char
    } else {
        (87 + d) as char
    }
}

/// `c` is a hexadecimal digit, small or capital.
pub open spec fn is_hex_digit(c: char) -> bool {
    is_digit(c) || 'a' <= c <= 'f' || 'A' <= c <= 'F'
}

/// What a hexadecimal digit stands for.
pub open spec fn hex_digit_value(c: char) -> nat {
    if is_digit(c) {
        (c as u32 - 48) as nat
    } else if 'a' <= c <= 'f' {
        (c as u32 - 87) as nat
    } else {
        (c as u32 - 55) as nat
    }
}

/// The number that hexadecimal digits write.
pub open spec fn hex_value(s: Seq<char>) -> nat
    decreases s.len(),
{
    if s.len() == 0 {
        0
    } else {
        hex_value(s.drop_last()) * 16 + hex_digit_value(s.last())
    }
}

/// The number that 32 hexadecimal digits write.
pub open spec fn simple_value(s: Seq<char>) -> Option<nat> {
    if s.len() == 32 && forall|i: int| 0 <= i < s.len() ==> is_hex_digit(#[trigger] s[i]) {
        Some(hex_value(s))
    } else {
        None
    }
}

/// 32 digits in groups of 8, 4, 4, 4 and 12 with hyphens between them.
pub open spec fn hyphenate(d: Seq<char>) -> Seq<char> {
    Seq::new(
        36,
        |i: int|
            if i < 8 {
                d[i]
            } else if i == 8 || i == 13 || i == 18 || i == 23 {
                '-'
            } else if i < 13 {
                d[i - 1]
            } else if i < 18 {
                d[i - 2]
            } else if i < 23 {
                d[i - 3]
            } else {
                d[i - 4]
            },
    )
}

/// The 32 characters beside the four hyphens of a hyphenated form.
pub open spec fn without_hyphens(s: Seq<char>) -> Seq<char> {
    s.subrange(0, 8) + s.subrange(9, 13) + s.subrange(14, 18) + s.subrange(19, 23) + s.subrange(24, 36)
}

/// The number that a hyphenated form writes.
pub open spec fn hyphenated_value(s: Seq<char>) -> Option<nat> {
    if s.len() == 36 && s[8] == '-' && s[13] == '-' && s[18] == '-' && s[23] == '-' {
        simple_value(without_hyphens(s))
    } else {
        None
    }
}

/// The prefix of the URN form.
pub open spec fn urn_prefix() -> Seq<char> {
    seq!['u', 'r', 'n', ':', 'u', 'u', 'i', 'd', ':']
}

/// The identifier that a text writes: 32 hexadecimal digits, plain, or
/// hyphenated, or hyphenated in braces, or hyphenated after `urn:uuid:`.
pub open spec fn parsed_uuid(s: Seq<char>) -> Option<nat> {
    if s.len() == 32 {
        simple_value(s)
    } else if s.len() == 36 {
        hyphenated_value(s)
    } else if s.len() == 38 && s[0] == '{' && s[37] == '}' {
        hyphenated_value(s.subrange(1, 37))
    } else if s.len() == 45 && ascii_lower(s.take(9)) == urn_prefix() {
        hyphenated_value(s.skip(9))
    } else {
        None
    }
}

/// The 32 small hexadecimal digits of an identifier, the highest first.
pub open spec fn hex_digits(bits: u128) -> Seq<char> {
    Seq::new(32, |i: int| hex_digit((bits as nat / pow16((31 - i) as nat)) % 16))
}

/// The printed form of an identifier.
pub open spec fn uuid_text(id: Uuid) -> Seq<char> {
    hyphenate(hex_digits(id.bits))
}

/// The identifier whose bits are all zero.
pub open spec fn nil_uuid() -> Uuid {
    Uuid { bits: 0 }
}

/// The version and the variant of a random identifier.
pub open spec fn is_random_uuid(id: Uuid) -> bool {
    &&& (id.bits as nat / pow16(19)) % 16 == 4
    &&& 8 <= (id.bits as nat / pow16(15)) % 16 <= 11
}

/// `uuid::Uuid::new_v4`: a random identifier of version 4. Nothing is stated
/// of which one it is.
#[verifier::external_body]
fn random_bits() -> (r: u128)
    ensures
        is_random_uuid(Uuid { bits: r }),
{
    uuid::Uuid::new_v4().as_u128()
}

/// `uuid::Uuid::parse_str`: reads the plain, hyphenated, braced and URN forms,
/// and nothing else.
#[verifier::external_body]
fn parse_bits(text: &str) -> (r: Option<u128>)
    ensures
        match r {
            Some(bits) => parsed_uuid(text@) == Some(bits as nat),
            None => parsed_uuid(text@) is None,
        },
{
    uuid::Uuid::parse_str(text).ok().map(|id| id.as_u128())
}

/// `uuid::Uuid`'s `Display`: small hexadecimal digits, hyphenated.
#[verifier::external_body]
fn print_bits(bits: u128) -> (r: String)
    ensures
        r@ == uuid_text(Uuid { bits }),
{
    uuid::Uuid::from_u128(bits).to_string()
}

impl Uuid {
    /// The identifier whose bits are all zero.
    pub fn nil() -> (r: Uuid)
        ensures
            r == nil_uuid(),
    {
        Uuid { bits: 0 }
    }

    /// A fresh random identifier.
    pub fn new_v4() -> (r: Uuid)
        ensures
            is_random_uuid(r),
            r != nil_uuid(),
    {
        let bits: u128 = random_bits();
        proof {
            assert(0nat / pow16(19) == 0) by {
                lemma_pow16_positive(19);
                vstd::arithmetic::div_mod::lemma_basic_div(0, pow16(19) as int);
            }
        }
        Uuid { bits }
    }

    /// The identifier that `text` writes, if it writes one.
    pub fn parse_str(text: &str) -> (r: Option<Uuid>)
        ensures
            match r {
                Some(id) => parsed_uuid(text@) == Some(id.bits as nat),
                None => parsed_uuid(text@) is None,
            },
    {
        match parse_bits(text) {
            Some(bits) => Some(Uuid { bits }),
            None => None,
        }
    }

    /// The identifier that `text` writes, or the nil one.
    pub fn parse_or_nil(text: &str) -> (r: Uuid)
        ensures
            r.bits as nat == (match parsed_uuid(text@) {
                Some(bits) => bits,
                None => 0,
            }),
    {
        match parse_bits(text) {
            Some(bits) => Uuid { bits },
            None => Uuid::nil(),
        }
    }

    /// The hyphenated form.
    pub fn to_text(&self) -> (r: String)
        ensures
            r@ == uuid_text(*self),
    {
        print_bits(self.bits)
    }
}

/// Fresh random identifiers.
pub fn fresh_ids(n: usize) -> (r: Vec<Uuid>)
    ensures
        r@.len() == n,
        forall|i: int| 0 <= i < n ==> is_random_uuid(#[trigger] r@[i]),
{
    let mut r: Vec<Uuid> = Vec::new();
    let mut i: usize = 0;
    while i < n
        invariant
            i <= n,
            r@.len() == i,
            forall|j: int| 0 <= j < i ==> is_random_uuid(#[trigger] r@[j]),
        decreases n - i,
    {
        r.push(Uuid::new_v4());
        i += 1;
    }
    r
}

pub proof fn lemma_pow16_positive(n: nat)
    ensures
        pow16(n) > 0,
    decreases n,
{
    if n > 0 {
        lemma_pow16_positive((n - 1) as nat);
    }
}

proof fn lemma_hex_value_of_digits(bits: u128, k: nat)
    requires
        k <= 32,
    ensures
        hex_value(hex_digits(bits).take(k as int)) == bits as nat / pow16((32 - k) as nat),
    decreases k,
{
    let digits = hex_digits(bits);
    if k == 0 {
        assert(pow16(32) == 0x1_0000_0000_0000_0000_0000_0000_0000_0000) by {
            reveal_with_fuel(pow16, 33);
        }
        vstd::arithmetic::div_mod::lemma_basic_div(bits as int, pow16(32) as int);
    } else {
        let j = (k - 1) as nat;
        lemma_hex_value_of_digits(bits, j);
        assert(digits.take(k as int).drop_last() =~= digits.take(j as int));
        let low = pow16((32 - k) as nat);
        lemma_pow16_positive((32 - k) as nat);
        let q = bits as nat / low;
        assert(pow16((32 - j) as nat) == 16 * low);
        vstd::arithmetic::div_mod::lemma_div_denominator(bits as int, low as int, 16);
        assert(low * 16 == 16 * low);
        assert(bits as nat / pow16((32 - j) as nat) == q / 16);
        let last = digits.take(k as int).last();
        assert(last == hex_digit(q % 16));
        assert(hex_digit_value(last) == q % 16);
    }
}

/// Reading the printed form of an identifier gives the identifier back, so no
/// two identifiers print alike.
pub proof fn law_uuid_round_trip(id: Uuid)
    ensures
        parsed_uuid(uuid_text(id)) == Some(id.bits as nat),
{
    let digits = hex_digits(id.bits);
    let text = uuid_text(id);
    assert(without_hyphens(text) =~= digits);
    assert forall|i: int| 0 <= i < digits.len() implies is_hex_digit(#[trigger] digits[i]) by {
        let d = (id.bits as nat / pow16((31 - i) as nat)) % 16;
        assert(digits[i] == hex_digit(d));
    }
    lemma_hex_value_of_digits(id.bits, 32);
    assert(digits.take(32) =~= digits);
    assert(pow16(0) == 1);
    assert(text.len() == 36);
    assert(hyphenated_value(text) == simple_value(digits));
    assert(simple_value(digits) == Some(hex_value(digits)));
    assert(id.bits as nat / 1 == id.bits as nat);
}

} // verus!
