//! Conversion of one block: up to six bytes, read as a big-endian number,
//! become one more base-116 digit than there are bytes, and back.
use vstd::prelude::*;
use crate::alphabet::BASE;

verus! {

/// Bytes in a full block.
pub const BLOCK_BYTES: usize = 6;

/// Digits in a full block.
pub const BLOCK_DIGITS: usize = 7;

/// `base` to the power `n`.
pub open spec fn power(base: nat, n: nat) -> nat
    decreases n,
{
    if n == 0 {
        1
    } else {
        base * power(base, (n - 1) as nat)
    }
}

/// The number that the digits `s` denote in `base`, most significant first.
pub open spec fn radix_value(s: Seq<u8>, base: nat) -> nat
    decreases s.len(),
{
    if s.len() == 0 {
        0
    } else {
        radix_value(s.drop_last(), base) * base + s.last() as nat
    }
}

/// The last `len` digits of `v` in `base`, most significant first.
pub open spec fn radix_digits(v: nat, base: nat, len: nat) -> Seq<u8>
    decreases len,
{
    if len == 0 {
        Seq::empty()
    } else {
        radix_digits(v / base, base, (len - 1) as nat).push((v % base) as u8)
    }
}

/// Every element of `s` is below `base`.
pub open spec fn all_below(s: Seq<u8>, base: nat) -> bool {
    forall|i: int| 0 <= i < s.len() ==> (#[trigger] s[i]) < base
}

/// The digits that a group of one to six bytes becomes.
pub open spec fn encode_group(bytes: Seq<u8>) -> Seq<u8> {
    radix_digits(radix_value(bytes, 256), BASE as nat, bytes.len() + 1)
}

/// Why a sequence of symbols does not decode.
#[derive(Debug, Clone, Copy, PartialEq, Eq, Structural)]
pub enum DecodeError {
    /// A character outside the alphabet, with its position, in strict mode.
    InvalidSymbol { symbol: char, position: usize },
    /// A final group of one digit, which no byte count maps to.
    InvalidLength,
    /// A group whose value does not fit in the bytes it stands for.
    Overflow,
    /// A wrapper marker is absent where one is required.
    MissingWrapper,
    /// A wrapper marker inside a payload that must be wrapped.
    UnexpectedWrapper,
}

/// The bytes that a group of digits decodes to: a group of two to seven
/// digits stands for one byte fewer, and any other length is invalid.
pub open spec fn decode_group(digits: Seq<u8>) -> Result<Seq<u8>, DecodeError> {
    let n = (digits.len() - 1) as nat;
    if digits.len() < 2 || digits.len() > BLOCK_DIGITS {
        Err(DecodeError::InvalidLength)
    } else if radix_value(digits, BASE as nat) < power(256, n) {
        Ok(radix_digits(radix_value(digits, BASE as nat), 256, n))
    } else {
        Err(DecodeError::Overflow)
    }
}

/// The view of an executable decoding result.
pub open spec fn result_view(r: Result<Vec<u8>, DecodeError>) -> Result<Seq<u8>, DecodeError> {
    match r {
        Ok(v) => Ok(v@),
        Err(e) => Err(e),
    }
}

pub proof fn lemma_radix_digits_len(v: nat, base: nat, len: nat)
    requires
        0 < base <= 256,
    ensures
        radix_digits(v, base, len).len() == len,
    decreases len,
{
    if len > 0 {
        lemma_radix_digits_len(v / base, base, (len - 1) as nat);
    }
}

pub proof fn lemma_radix_digits_below(v: nat, base: nat, len: nat)
    requires
        0 < base <= 256,
    ensures
        all_below(radix_digits(v, base, len), base),
    decreases len,
{
    if len > 0 {
        lemma_radix_digits_below(v / base, base, (len - 1) as nat);
        lemma_radix_digits_len(v / base, base, (len - 1) as nat);
        let s = radix_digits(v, base, len);
        assert forall|i: int| 0 <= i < s.len() implies (#[trigger] s[i]) < base by {
            if i == s.len() - 1 {
                assert(v % base < base);
            }
        }
    }
}

proof fn lemma_power_positive(base: nat, n: nat)
    requires
        base > 0,
    ensures
        power(base, n) > 0,
    decreases n,
{
    if n > 0 {
        lemma_power_positive(base, (n - 1) as nat);
        assert(base * power(base, (n - 1) as nat) > 0) by (nonlinear_arith)
            requires base > 0, power(base, (n - 1) as nat) > 0;
    }
}

/// A number written with `n` digits below `base` is below `base` to the `n`.
pub proof fn lemma_radix_value_bound(s: Seq<u8>, base: nat)
    requires
        all_below(s, base),
    ensures
        radix_value(s, base) < power(base, s.len()),
    decreases s.len(),
{
    if s.len() > 0 {
        let p = s.drop_last();
        lemma_radix_value_bound(p, base);
        let r = radix_value(p, base);
        let q = power(base, p.len());
        let d = s.last() as nat;
        assert(d < base);
        assert(r * base + d < base * q) by (nonlinear_arith)
            requires r < q, d < base;
    }
}

/// Writing a number below `base` to the `len` with `len` digits and reading
/// them back gives the number.
pub proof fn lemma_value_of_digits(v: nat, base: nat, len: nat)
    requires
        0 < base <= 256,
        v < power(base, len),
    ensures
        radix_value(radix_digits(v, base, len), base) == v,
    decreases len,
{
    if len > 0 {
        let q = v / base;
        let p = power(base, (len - 1) as nat);
        vstd::arithmetic::div_mod::lemma_fundamental_div_mod(v as int, base as int);
        assert(q < p) by (nonlinear_arith)
            requires v < base * p, q == v / base, base > 0;
        lemma_value_of_digits(q, base, (len - 1) as nat);
        lemma_radix_digits_len(v, base, len);
        let s = radix_digits(v, base, len);
        assert(s.drop_last() =~= radix_digits(q, base, (len - 1) as nat));
        assert((v % base) as u8 as nat == v % base);
        assert(s.last() as nat == v % base);
        assert(q * base + v % base == v) by (nonlinear_arith)
            requires v == base * q + v % base;
        assert(radix_value(s, base) == q * base + v % base);
    }
}

/// Reading digits below `base` as a number and writing it back with as many
/// digits gives the digits.
pub proof fn lemma_digits_of_value(s: Seq<u8>, base: nat)
    requires
        0 < base <= 256,
        all_below(s, base),
    ensures
        radix_digits(radix_value(s, base), base, s.len()) == s,
    decreases s.len(),
{
    if s.len() > 0 {
        let p = s.drop_last();
        let v = radix_value(s, base);
        let d = s.last() as nat;
        assert(all_below(p, base));
        vstd::arithmetic::div_mod::lemma_fundamental_div_mod_converse(
            v as int,
            base as int,
            radix_value(p, base) as int,
            d as int,
        );
        lemma_digits_of_value(p, base);
        assert(radix_digits(v, base, s.len()) =~= s);
    }
}

proof fn lemma_group_widths()
    ensures
        power(256, 1) <= power(BASE as nat, 2),
        power(256, 2) <= power(BASE as nat, 3),
        power(256, 3) <= power(BASE as nat, 4),
        power(256, 4) <= power(BASE as nat, 5),
        power(256, 5) <= power(BASE as nat, 6),
        power(256, 6) <= power(BASE as nat, 7),
        power(BASE as nat, 7) < 0x1_0000_0000_0000_0000,
{
    reveal_with_fuel(power, 8);
}

/// A group of one to six bytes survives encoding and decoding.
pub proof fn lemma_group_round_trip(bytes: Seq<u8>)
    requires
        1 <= bytes.len() <= BLOCK_BYTES,
    ensures
        encode_group(bytes).len() == bytes.len() + 1,
        all_below(encode_group(bytes), BASE as nat),
        decode_group(encode_group(bytes)) == Ok::<Seq<u8>, DecodeError>(bytes),
{
    let k = bytes.len();
    let v = radix_value(bytes, 256);
    lemma_radix_digits_len(v, BASE as nat, k + 1);
    lemma_radix_digits_below(v, BASE as nat, k + 1);
    assert(all_below(bytes, 256));
    lemma_radix_value_bound(bytes, 256);
    lemma_group_widths();
    lemma_value_of_digits(v, BASE as nat, k + 1);
    lemma_digits_of_value(bytes, 256);
}

proof fn lemma_power_monotone(base: nat, a: nat, b: nat)
    requires
        base > 0,
        a <= b,
    ensures
        power(base, a) <= power(base, b),
    decreases b,
{
    if a < b {
        lemma_power_monotone(base, a, (b - 1) as nat);
        lemma_power_positive(base, (b - 1) as nat);
        let p = power(base, (b - 1) as nat);
        assert(p <= base * p) by (nonlinear_arith)
            requires base > 0, p > 0;
    }
}

/// `base` to the power `n`, as a machine integer.
fn power_u64(base: u64, n: usize) -> (r: u64)
    requires
        base > 0,
        power(base as nat, n as nat) <= u64::MAX,
    ensures
        r == power(base as nat, n as nat),
{
    let mut r: u64 = 1;
    let mut i: usize = 0;
    while i < n
        invariant
            i <= n,
            base > 0,
            power(base as nat, n as nat) <= u64::MAX,
            r == power(base as nat, i as nat),
        decreases n - i,
    {
        proof {
            lemma_power_monotone(base as nat, (i + 1) as nat, n as nat);
            assert(power(base as nat, (i + 1) as nat) == base * power(base as nat, i as nat));
        }
        r = base * r;
        i += 1;
    }
    r
}

/// The number that `digits` denote in `base`.
fn read_value(digits: &[u8], base: u64) -> (r: u64)
    requires
        0 < base <= 256,
        all_below(digits@, base as nat),
        power(base as nat, digits@.len()) <= u64::MAX,
    ensures
        r == radix_value(digits@, base as nat),
{
    let mut v: u64 = 0;
    let mut i: usize = 0;
    while i < digits.len()
        invariant
            i <= digits@.len(),
            0 < base <= 256,
            all_below(digits@, base as nat),
            power(base as nat, digits@.len()) <= u64::MAX,
            v == radix_value(digits@.take(i as int), base as nat),
        decreases digits@.len() - i,
    {
        let d = digits[i];
        proof {
            let p = digits@.take(i as int);
            assert(all_below(p, base as nat));
            lemma_radix_value_bound(p, base as nat);
            lemma_power_monotone(base as nat, (i + 1) as nat, digits@.len());
            assert(digits@.take(i + 1).drop_last() =~= p);
            let q = power(base as nat, i as nat);
            assert(v * base + d < base * q) by (nonlinear_arith)
                requires v < q, d < base;
        }
        v = v * base + d as u64;
        i += 1;
    }
    proof {
        assert(digits@.take(i as int) =~= digits@);
    }
    v
}

/// The last `len` digits of `v` in `base`.
fn write_digits(v: u64, base: u64, len: usize) -> (r: Vec<u8>)
    requires
        0 < base <= 256,
    ensures
        r@ == radix_digits(v as nat, base as nat, len as nat),
{
    let mut out: Vec<u8> = Vec::new();
    let mut cur: u64 = v;
    let mut t: usize = 0;
    while t < len
        invariant
            t <= len,
            0 < base <= 256,
            radix_digits(v as nat, base as nat, len as nat) == radix_digits(
                cur as nat,
                base as nat,
                (len - t) as nat,
            ) + out@,
        decreases len - t,
    {
        let d = (cur % base) as u8;
        proof {
            let rest = radix_digits((cur / base) as nat, base as nat, (len - t - 1) as nat);
            assert(radix_digits(cur as nat, base as nat, (len - t) as nat) == rest.push(d));
            assert(rest.push(d) + out@ =~= rest + (seq![d] + out@));
        }
        out.insert(0, d);
        cur = cur / base;
        t += 1;
    }
    proof {
        assert(out@ =~= Seq::<u8>::empty() + out@);
    }
    out
}

/// The digits of a group of one to six bytes.
pub fn encode_block(bytes: &[u8]) -> (r: Vec<u8>)
    requires
        1 <= bytes@.len() <= BLOCK_BYTES,
    ensures
        r@ == encode_group(bytes@),
{
    proof {
        lemma_group_widths();
        lemma_power_monotone(256, bytes@.len(), 6);
        assert(all_below(bytes@, 256));
    }
    let v = read_value(bytes, 256);
    write_digits(v, BASE as u64, bytes.len() + 1)
}

/// The bytes of a group of digits, or why it has none: a group of two to
/// seven digits stands for one byte fewer; no other length is valid.
pub fn decode_block(digits: &[u8]) -> (r: Result<Vec<u8>, DecodeError>)
    requires
        all_below(digits@, BASE as nat),
    ensures
        result_view(r) == decode_group(digits@),
{
    if digits.len() < 2 || digits.len() > BLOCK_DIGITS {
        return Err(DecodeError::InvalidLength);
    }
    proof {
        lemma_group_widths();
        lemma_power_monotone(BASE as nat, digits@.len(), 7);
        lemma_power_monotone(256, (digits@.len() - 1) as nat, 6);
    }
    let v = read_value(digits, BASE as u64);
    let n = digits.len() - 1;
    let limit = power_u64(256, n);
    if v < limit {
        Ok(write_digits(v, 256, n))
    } else {
        Err(DecodeError::Overflow)
    }
}

} // verus!
