//! 128-bit identifiers written as 36 hyphenated hexadecimal characters.

use crate::grammar::{done, fail, scan_raw, Step};
use crate::parser::ParseError;
use vstd::prelude::*;

verus! {

/// `-` separates the five groups of an identifier.
pub const HYPHEN: u8 = 0x2d;

/// `0`-`9`, `a`-`f` or `A`-`F`.
pub open spec fn is_hex_digit(b: u8) -> bool {
    (0x30 <= b <= 0x39) || (0x61 <= b <= 0x66) || (0x41 <= b <= 0x46)
}

/// The value of a hexadecimal digit.
pub open spec fn hex_digit_value(b: u8) -> nat {
    if b <= 0x39 {
        (b - 0x30) as nat
    } else if b >= 0x61 {
        (b - 0x61 + 10) as nat
    } else {
        (b - 0x41 + 10) as nat
    }
}

/// True at the four offsets where a hyphen stands.
pub open spec fn is_hyphen_offset(i: int) -> bool {
    i == 8 || i == 13 || i == 18 || i == 23
}

/// True when byte `i` of `text` is what the hyphenated form wants there.
pub open spec fn well_placed(text: Seq<u8>, i: int) -> bool {
    if is_hyphen_offset(i) {
        text[i] == HYPHEN
    } else {
        is_hex_digit(text[i])
    }
}

/// The hyphenated form: 36 bytes, hexadecimal digits in groups of
/// 8-4-4-4-12 with a hyphen between groups.
pub open spec fn is_hyphenated_uuid(text: Seq<u8>) -> bool {
    &&& text.len() == 36
    &&& forall|i: int| 0 <= i < 36 ==> well_placed(text, i)
}

/// The number whose hexadecimal digits, most significant first, are the
/// digits of `text`; hyphens are passed over.
pub open spec fn hex_number(text: Seq<u8>) -> nat
    decreases text.len(),
{
    if text.len() == 0 {
        0
    } else if text.last() == HYPHEN {
        hex_number(text.drop_last())
    } else {
        16 * hex_number(text.drop_last()) + hex_digit_value(text.last())
    }
}

/// Number of bytes of `text` that are not hyphens.
pub open spec fn digit_count(text: Seq<u8>) -> nat
    decreases text.len(),
{
    if text.len() == 0 {
        0
    } else if text.last() == HYPHEN {
        digit_count(text.drop_last())
    } else {
        digit_count(text.drop_last()) + 1
    }
}

/// Sixteen to the power `n`.
pub open spec fn pow16(n: nat) -> nat
    decreases n,
{
    if n == 0 {
        1
    } else {
        16 * pow16((n - 1) as nat)
    }
}

/// A number of `n` hexadecimal digits is below sixteen to the power `n`.
proof fn lemma_hex_below_pow(text: Seq<u8>)
    requires
        forall|i: int| 0 <= i < text.len() ==> text[i] == HYPHEN || is_hex_digit(text[i]),
    ensures
        hex_number(text) < pow16(digit_count(text)),
    decreases text.len(),
{
    if text.len() > 0 {
        let front = text.drop_last();
        assert forall|i: int| 0 <= i < front.len() implies front[i] == HYPHEN || is_hex_digit(
            front[i],
        ) by {
            assert(front[i] == text[i]);
        }
        lemma_hex_below_pow(front);
        assert(text.last() == HYPHEN || is_hex_digit(text.last()));
    }
}

/// Number of hyphens that the hyphenated form has before offset `i`.
spec fn hyphens_before(i: int) -> int {
    (if i > 8 {
        1int
    } else {
        0int
    }) + (if i > 13 {
        1int
    } else {
        0int
    }) + (if i > 18 {
        1int
    } else {
        0int
    }) + (if i > 23 {
        1int
    } else {
        0int
    })
}

/// The first `i` bytes of the hyphenated form hold `i` bytes less the
/// hyphens among them in digits.
proof fn lemma_hyphenated_digits(text: Seq<u8>, i: int)
    requires
        is_hyphenated_uuid(text),
        0 <= i <= 36,
    ensures
        digit_count(text.take(i)) == i - hyphens_before(i),
    decreases i,
{
    if i > 0 {
        lemma_hyphenated_digits(text, i - 1);
        assert(text.take(i).drop_last() == text.take(i - 1));
        assert(text.take(i).last() == text[i - 1]);
        assert(well_placed(text, i - 1));
    }
}

/// The digits of the hyphenated form spell a number of 128 bits.
pub proof fn lemma_uuid_fits(text: Seq<u8>)
    requires
        is_hyphenated_uuid(text),
    ensures
        hex_number(text) <= u128::MAX,
{
    assert forall|i: int| 0 <= i < text.len() implies text[i] == HYPHEN || is_hex_digit(
        text[i],
    ) by {
        assert(well_placed(text, i));
    }
    lemma_hex_below_pow(text);
    lemma_hyphenated_digits(text, 36);
    assert(text.take(36) == text);
    assert(pow16(32) == 0x1_0000_0000_0000_0000_0000_0000_0000_0000) by {
        reveal_with_fuel(pow16, 33);
    }
}

/// Identifier field: a raw field in the hyphenated form; its value is the
/// 128-bit number its digits spell.
pub open spec fn scan_uuid(s: Seq<u8>, pos: int) -> Step<u128> {
    let raw = scan_raw(s, pos);
    match raw.result {
        Err(e) => fail(e, raw.pos),
        Ok(text) => if is_hyphenated_uuid(text) {
            done(hex_number(text) as u128, raw.pos)
        } else {
            fail(ParseError::InvalidFormat, raw.pos)
        },
    }
}

/// Tells whether `text` is in the hyphenated form.
pub fn is_hyphenated(text: &[u8]) -> (ok: bool)
    ensures
        ok == is_hyphenated_uuid(text@),
{
    if text.len() != 36 {
        return false;
    }
    let mut i: usize = 0;
    while i < 36
        invariant
            i <= 36,
            text@.len() == 36,
            forall|j: int| 0 <= j < i ==> well_placed(text@, j),
        decreases 36 - i,
    {
        let b: u8 = text[i];
        if i == 8 || i == 13 || i == 18 || i == 23 {
            if b != HYPHEN {
                assert(!well_placed(text@, i as int));
                return false;
            }
        } else if !((0x30 <= b && b <= 0x39) || (0x61 <= b && b <= 0x66) || (0x41 <= b && b
            <= 0x46)) {
            assert(!well_placed(text@, i as int));
            return false;
        }
        i = i + 1;
    }
    true
}

/// `uuid::Uuid::try_parse_ascii`, read back with `Uuid::as_u128`: text in
/// the hyphenated form always parses, and the identifier's 128 bits are the
/// number that its 32 hexadecimal digits spell, most significant digit first.
#[verifier::external_body]
pub(crate) fn hyphenated_bits(text: &[u8]) -> (bits: Option<u128>)
    requires
        is_hyphenated_uuid(text@),
    ensures
        bits == Some(hex_number(text@) as u128),
{
    uuid::Uuid::try_parse_ascii(text).ok().map(|id| id.as_u128())
}

} // verus!
