//! The 116 symbols: the code points U+0100 to U+0173 (Latin Extended-A),
//! symbol `v` standing for the value `v`. The two wrapper markers lie outside
//! that range.
use vstd::prelude::*;

verus! {

/// Number of symbols, and so the numeral base.
pub const BASE: u32 = 116;

/// Code point of the symbol whose value is 0.
pub const FIRST_CODE: u32 = 0x100;

/// Marker that opens a wrapped payload.
pub const PREFIX: char = '\u{1F1}';

/// Marker that closes a wrapped payload.
pub const SUFFIX: char = '\u{1F2}';

/// `c` is one of the 116 symbols.
pub open spec fn is_symbol(c: char) -> bool {
    FIRST_CODE <= c as u32 && (c as u32) < FIRST_CODE + BASE
}

/// The value that a symbol stands for.
pub open spec fn digit_of(c: char) -> u8 {
    (c as u32 - FIRST_CODE) as u8
}

/// `c` is one of the two wrapper markers.
pub open spec fn is_marker(c: char) -> bool {
    c == PREFIX || c == SUFFIX
}

/// `s` spells out the digits `d`, one symbol for each.
pub open spec fn spells(s: Seq<char>, d: Seq<u8>) -> bool {
    &&& s.len() == d.len()
    &&& forall|i: int| 0 <= i < s.len() ==> (#[trigger] s[i]) as u32 == FIRST_CODE + d[i]
}

/// Relies on char::from_u32: it returns the character of the given code point
/// whenever that code point is a Unicode scalar value, as all below U+D800 are.
#[verifier::external_body]
fn char_from_code(n: u32) -> (r: Option<char>)
    ensures
        n < 0xD800 ==> r.is_some(),
        r matches Some(c) ==> c as u32 == n,
{
    char::from_u32(n)
}

/// The symbol for `value`.
pub fn symbol_for(value: u8) -> (r: char)
    requires
        value < BASE,
    ensures
        is_symbol(r),
        r as u32 == FIRST_CODE + value,
        digit_of(r) == value,
{
    char_from_code(FIRST_CODE + value as u32).unwrap()
}

/// The value of a symbol, or `None` for a character outside the alphabet.
pub fn value_for(c: char) -> (r: Option<u8>)
    ensures
        r == (if is_symbol(c) { Some(digit_of(c)) } else { None::<u8> }),
{
    let code = c as u32;
    if FIRST_CODE <= code && code < FIRST_CODE + BASE {
        Some((code - FIRST_CODE) as u8)
    } else {
        None
    }
}

/// A character read out of a sequence is a well-formed `char` value, as
/// every value the function returns is.
pub proof fn lemma_valid_char(c: char) -> (r: char)
    ensures
        r == c,
{
    c
}

/// The alphabet and the markers share no character.
pub proof fn lemma_markers_outside_alphabet(c: char)
    ensures
        is_marker(c) ==> !is_symbol(c),
{
}

} // verus!
