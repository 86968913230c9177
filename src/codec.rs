//! The bijection between a byte and a variation-selector scalar value.
use vstd::prelude::*;

verus! {

/// First scalar value of the low selector range (bytes 0 to 15).
pub const LOW_START: u32 = 0xFE00;

/// One past the last scalar value of the low selector range.
pub const LOW_END: u32 = 0xFE10;

/// First scalar value of the high selector range (bytes 16 to 255).
pub const HIGH_START: u32 = 0xE0100;

/// One past the last scalar value of the high selector range.
pub const HIGH_END: u32 = 0xE01F0;

/// Bytes below this value go to the low range, the others to the high range.
pub const LOW_COUNT: u8 = 16;

/// The scalar value that carries byte `b`.
pub open spec fn selector_value(b: u8) -> u32 {
    if b < LOW_COUNT {
        (LOW_START + b) as u32
    } else {
        (HIGH_START + (b - LOW_COUNT)) as u32
    }
}

/// Whether `v` lies in the low selector range.
pub open spec fn in_low_range(v: u32) -> bool {
    LOW_START <= v < LOW_END
}

/// Whether `v` lies in the high selector range.
pub open spec fn in_high_range(v: u32) -> bool {
    HIGH_START <= v < HIGH_END
}

/// Whether `c` is a selector, that is, carries a byte.
pub open spec fn is_selector(c: char) -> bool {
    in_low_range(c as u32) || in_high_range(c as u32)
}

/// The byte carried by `c`, if `c` is a selector.
pub open spec fn byte_of(c: char) -> Option<u8> {
    let v = c as u32;
    if in_low_range(v) {
        Some((v - LOW_START) as u8)
    } else if in_high_range(v) {
        Some((v - HIGH_START + LOW_COUNT) as u8)
    } else {
        None
    }
}

/// Relies on char::from_u32: it returns the char of a Unicode scalar value,
/// and nothing for a surrogate or a value above 0x10FFFF.
#[verifier::external_body]
fn char_from_u32(v: u32) -> (r: Option<char>)
    ensures
        r is Some <==> (v <= 0xD7FF || (0xE000 <= v && v <= 0x10FFFF)),
        r matches Some(c) ==> c as u32 == v,
{
    char::from_u32(v)
}

/// The selector that carries `byte`.
pub fn byte_to_variation_selector(byte: u8) -> (c: char)
    ensures
        c as u32 == selector_value(byte),
        is_selector(c),
{
    let v: u32 = if byte < LOW_COUNT {
        LOW_START + byte as u32
    } else {
        HIGH_START + (byte - LOW_COUNT) as u32
    };
    char_from_u32(v).unwrap()
}

/// The byte that `c` carries, or `None` where `c` is no selector.
pub fn variant_selector_to_byte(c: char) -> (r: Option<u8>)
    ensures
        r == byte_of(c),
        r is Some <==> is_selector(c),
{
    let v: u32 = c as u32;
    if LOW_START <= v && v < LOW_END {
        Some((v - LOW_START) as u8)
    } else if HIGH_START <= v && v < HIGH_END {
        Some((v - HIGH_START + LOW_COUNT as u32) as u8)
    } else {
        None
    }
}

/// Every byte is carried by a selector, and reading that selector gives the
/// byte back.
pub proof fn lemma_byte_round_trip(b: u8)
    ensures
        is_selector(selector_value(b) as char),
        byte_of(selector_value(b) as char) == Some(b),
{
}

/// Reading a selector and writing its byte gives the selector back: the
/// mapping is one to one onto the selector ranges.
pub proof fn lemma_selector_round_trip(c: char)
    requires
        is_selector(c),
    ensures
        byte_of(c) matches Some(b) && selector_value(b) == c as u32,
{
}

/// The two selector ranges do not meet, and together they hold exactly 256
/// values, one for each byte.
pub proof fn lemma_ranges_disjoint()
    ensures
        forall|v: u32| !(#[trigger] in_low_range(v) && in_high_range(v)),
        (LOW_END - LOW_START) + (HIGH_END - HIGH_START) == 256,
        forall|b: u8| b < LOW_COUNT ==> #[trigger] in_low_range(selector_value(b)),
        forall|b: u8| b >= LOW_COUNT ==> #[trigger] in_high_range(selector_value(b)),
{
}

} // verus!
