//! Facts that relate encoding and decoding.
use vstd::prelude::*;
use crate::alphabet::{digit_of, is_marker, is_symbol, spells, BASE, FIRST_CODE, PREFIX, SUFFIX};
use crate::block::{
    all_below, decode_group, encode_group, lemma_group_round_trip, DecodeError, BLOCK_BYTES,
    BLOCK_DIGITS,
};
use crate::codec::{
    after_prefix, body, body_offset, decode_digits, decoded, encode_digits, errs, group_results,
    has_prefix, has_suffix, is_encoding, oks, payload, scan, DecodeConfig,
};

verus! {

/// The digits that the symbols of `s` stand for.
pub open spec fn digits_of(s: Seq<char>) -> Seq<u8> {
    s.map_values(|c: char| digit_of(c))
}

/// A whitespace character: space, tab, line feed or carriage return.
pub open spec fn is_space(c: char) -> bool {
    c == ' ' || c == '\t' || c == '\n' || c == '\r'
}

/// `t` framed by the markers when `wrapped`.
pub open spec fn frame(t: Seq<char>, wrapped: bool) -> Seq<char> {
    if wrapped {
        seq![PREFIX] + t + seq![SUFFIX]
    } else {
        t
    }
}

/// Symbols that spell digits scan to those digits, with no error, whatever
/// the configuration.
proof fn lemma_scan_spelled(t: Seq<char>, d: Seq<u8>, offset: nat, config: DecodeConfig)
    requires
        spells(t, d),
        all_below(d, BASE as nat),
    ensures
        scan(t, offset, config) == (d, Seq::<DecodeError>::empty()),
    decreases t.len(),
{
    if t.len() > 0 {
        let n = t.len() - 1;
        assert(t[n] as u32 == FIRST_CODE + d[n]);
        assert(d[n] < BASE);
        assert(is_symbol(t.last()));
        assert(digit_of(t.last()) == d[n]);
        assert(spells(t.drop_last(), d.drop_last())) by {
            assert forall|i: int| 0 <= i < t.drop_last().len() implies (#[trigger] t.drop_last()[i]) as u32
                == FIRST_CODE + d.drop_last()[i] by {
                assert(t[i] as u32 == FIRST_CODE + d[i]);
            }
        }
        lemma_scan_spelled(t.drop_last(), d.drop_last(), offset, config);
        assert(d.drop_last().push(d[n]) =~= d);
    } else {
        assert(d =~= Seq::<u8>::empty());
    }
}

/// Symbols alone scan to their digits, with no error.
proof fn lemma_scan_symbols(p: Seq<char>, offset: nat, config: DecodeConfig)
    requires
        forall|k: int| 0 <= k < p.len() ==> is_symbol(#[trigger] p[k]),
    ensures
        scan(p, offset, config) == (digits_of(p), Seq::<DecodeError>::empty()),
    decreases p.len(),
{
    if p.len() > 0 {
        assert(is_symbol(p[p.len() - 1]));
        assert(is_symbol(p.last()));
        lemma_scan_symbols(p.drop_last(), offset, config);
        assert(digits_of(p) =~= digits_of(p.drop_last()).push(digit_of(p.last())));
    } else {
        assert(digits_of(p) =~= Seq::<u8>::empty());
    }
}

/// The digits of a byte sequence are all below the base.
proof fn lemma_encode_digits_below(bytes: Seq<u8>)
    ensures
        all_below(encode_digits(bytes), BASE as nat),
    decreases bytes.len(),
{
    if bytes.len() > BLOCK_BYTES {
        lemma_group_round_trip(bytes.take(BLOCK_BYTES as int));
        lemma_encode_digits_below(bytes.skip(BLOCK_BYTES as int));
        let a = encode_group(bytes.take(BLOCK_BYTES as int));
        let b = encode_digits(bytes.skip(BLOCK_BYTES as int));
        assert forall|i: int| 0 <= i < (a + b).len() implies (#[trigger] (a + b)[i]) < BASE by {
            if i >= a.len() {
                assert(b[i - a.len()] < BASE);
            } else {
                assert(a[i] < BASE);
            }
        }
    } else if bytes.len() > 0 {
        lemma_group_round_trip(bytes);
    }
}

/// Decoding the digits of a byte sequence gives each byte back.
proof fn lemma_digits_round_trip(bytes: Seq<u8>)
    ensures
        decode_digits(encode_digits(bytes)) == oks(bytes),
        bytes.len() > 0 ==> encode_digits(bytes).len() > 0,
    decreases bytes.len(),
{
    if bytes.len() > BLOCK_BYTES {
        let head = bytes.take(BLOCK_BYTES as int);
        let tail = bytes.skip(BLOCK_BYTES as int);
        lemma_group_round_trip(head);
        lemma_digits_round_trip(tail);
        let a = encode_group(head);
        let e = a + encode_digits(tail);
        assert(e.take(BLOCK_DIGITS as int) =~= a);
        assert(e.skip(BLOCK_DIGITS as int) =~= encode_digits(tail));
        assert(encode_digits(bytes) == e);
        assert(e.len() > BLOCK_DIGITS);
        assert(oks(head) + oks(tail) =~= oks(bytes));
    } else if bytes.len() > 0 {
        lemma_group_round_trip(bytes);
    } else {
        assert(oks(bytes) =~= Seq::<Result<u8, DecodeError>>::empty());
    }
}

/// What a decoding gives when the wrapper setting matches the input and the
/// body scans to the digits of `bytes` with no error.
proof fn lemma_decoded_clean(s: Seq<char>, bytes: Seq<u8>, config: DecodeConfig)
    requires
        config.require_wrapper ==> has_prefix(s) && has_suffix(after_prefix(s, config)),
        scan(body(s, config), body_offset(s, config), config) == (encode_digits(bytes), Seq::<DecodeError>::empty()),
    ensures
        decoded(s, config) == oks(bytes),
{
    lemma_digits_round_trip(bytes);
    let e = Seq::<Result<u8, DecodeError>>::empty();
    assert(errs(Seq::<DecodeError>::empty()) =~= e);
    assert(e + e + oks(bytes) + e =~= oks(bytes));
}

/// The body of a framed input is what lies between the markers.
proof fn lemma_framed_body(s: Seq<char>, relaxed: bool)
    requires
        s.len() >= 2,
        s[0] == PREFIX,
        s.last() == SUFFIX,
    ensures
        has_prefix(s),
        has_suffix(after_prefix(s, DecodeConfig { require_wrapper: true, relaxed })),
        body(s, DecodeConfig { require_wrapper: true, relaxed }) == payload(s, true),
        body_offset(s, DecodeConfig { require_wrapper: true, relaxed }) == 1,
{
    let config = DecodeConfig { require_wrapper: true, relaxed };
    assert(after_prefix(s, config) =~= s.skip(1));
    assert(s.skip(1).last() == s.last());
    assert(s.skip(1).drop_last() =~= payload(s, true));
}

/// Round trip: decoding the encoding of any bytes, with the wrapper setting
/// it was made with, in strict or relaxed mode, gives each byte back and no
/// error.
pub proof fn lemma_round_trip(s: Seq<char>, bytes: Seq<u8>, wrapped: bool, relaxed: bool)
    requires
        is_encoding(s, bytes, wrapped),
    ensures
        decoded(s, DecodeConfig { require_wrapper: wrapped, relaxed }) == oks(bytes),
{
    let config = DecodeConfig { require_wrapper: wrapped, relaxed };
    if wrapped {
        lemma_framed_body(s, relaxed);
    }
    lemma_encode_digits_below(bytes);
    lemma_scan_spelled(payload(s, wrapped), encode_digits(bytes), body_offset(s, config), config);
    lemma_decoded_clean(s, bytes, config);
}

/// Empty input: the encoding of no bytes is empty, or the two markers alone
/// when wrapped, and it decodes to nothing.
pub proof fn lemma_empty(s: Seq<char>, wrapped: bool, relaxed: bool)
    requires
        is_encoding(s, Seq::empty(), wrapped),
    ensures
        s == (if wrapped { seq![PREFIX, SUFFIX] } else { Seq::<char>::empty() }),
        decoded(s, DecodeConfig { require_wrapper: wrapped, relaxed }) == Seq::<Result<u8, DecodeError>>::empty(),
{
    if wrapped {
        assert(s =~= seq![PREFIX, SUFFIX]);
    } else {
        assert(s =~= Seq::<char>::empty());
    }
    lemma_round_trip(s, Seq::empty(), wrapped, relaxed);
    assert(oks(Seq::empty()) =~= Seq::<Result<u8, DecodeError>>::empty());
}

/// Strict rejection: putting a character outside the alphabet in place of
/// one symbol of an encoding makes strict decoding report, as its first
/// result, `InvalidSymbol` at that position. (Under a required wrapper a
/// marker there is reported as `UnexpectedWrapper` instead, so the character
/// is not a marker then.)
pub proof fn lemma_strict_rejection(s: Seq<char>, bytes: Seq<u8>, wrapped: bool, i: int, c: char)
    requires
        is_encoding(s, bytes, wrapped),
        if wrapped { 1 <= i < s.len() - 1 } else { 0 <= i < s.len() },
        !is_symbol(c),
        !(wrapped && is_marker(c)),
    ensures
        decoded(s.update(i, c), DecodeConfig { require_wrapper: wrapped, relaxed: false }).len() > 0,
        decoded(s.update(i, c), DecodeConfig { require_wrapper: wrapped, relaxed: false })[0]
            == Err::<u8, DecodeError>(DecodeError::InvalidSymbol { symbol: c, position: i as usize }),
{
    let config = DecodeConfig { require_wrapper: wrapped, relaxed: false };
    let offset: int = if wrapped { 1 } else { 0 };
    let s2 = s.update(i, c);
    let p = payload(s, wrapped);
    let p2 = payload(s2, wrapped);
    let d = encode_digits(bytes);
    let j = i - offset;
    if wrapped {
        assert(s2[0] == s[0]);
        assert(s2.last() == s.last());
        lemma_framed_body(s2, false);
    }
    assert(p2 =~= p.update(j, c));
    assert(body(s2, config) == p2);
    lemma_encode_digits_below(bytes);
    let pre = p.take(j);
    assert(spells(pre, d.take(j))) by {
        assert forall|k: int| 0 <= k < pre.len() implies (#[trigger] pre[k]) as u32 == FIRST_CODE + d.take(j)[k] by {
            assert(p[k] as u32 == FIRST_CODE + d[k]);
        }
    }
    assert(all_below(d.take(j), BASE as nat));
    lemma_scan_spelled(pre, d.take(j), offset as nat, config);
    let t = p2.take(j + 1);
    assert(t.drop_last() =~= pre);
    assert(t.last() == c);
    crate::alphabet::lemma_valid_char(c);
    let err = DecodeError::InvalidSymbol { symbol: c, position: i as usize };
    assert(scan(t, offset as nat, config).1 =~= seq![err]);
    crate::codec::lemma_scan_errors_grow(p2, offset as nat, config, j + 1);
    let sc = scan(p2, offset as nat, config);
    assert(scan(t, offset as nat, config).1[0] == err);
    assert(sc.1[0] == scan(t, offset as nat, config).1[0]);
    let r = decoded(s2, config);
    assert(errs(sc.1)[0] == Err::<u8, DecodeError>(err));
    assert(r[0] == errs(sc.1)[0]);
}

/// Scanning in relaxed mode, where every character is a symbol or
/// whitespace, gives the digits of the symbols alone and no error.
proof fn lemma_scan_relaxed(t: Seq<char>, offset: nat, config: DecodeConfig)
    requires
        config.relaxed,
        forall|k: int| 0 <= k < t.len() ==> is_symbol(#[trigger] t[k]) || is_space(t[k]),
    ensures
        scan(t, offset, config) == (digits_of(t.filter(|c: char| is_symbol(c))), Seq::<DecodeError>::empty()),
    decreases t.len(),
{
    reveal(Seq::filter);
    if t.len() > 0 {
        let last = t.last();
        assert(is_symbol(t[t.len() - 1]) || is_space(t[t.len() - 1]));
        lemma_scan_relaxed(t.drop_last(), offset, config);
        let f = t.drop_last().filter(|c: char| is_symbol(c));
        if is_symbol(last) {
            assert(t.filter(|c: char| is_symbol(c)) == f.push(last));
            assert(digits_of(f.push(last)) =~= digits_of(f).push(digit_of(last)));
        } else {
            assert(t.filter(|c: char| is_symbol(c)) == f);
            assert(!is_marker(last));
        }
    } else {
        assert(digits_of(t.filter(|c: char| is_symbol(c))) =~= Seq::<u8>::empty());
    }
}

/// Relaxed tolerance: whitespace put anywhere among the symbols of an
/// encoding does not change what relaxed decoding gives: each byte, and no
/// error.
pub proof fn lemma_relaxed_tolerance(s: Seq<char>, bytes: Seq<u8>, wrapped: bool, t: Seq<char>)
    requires
        is_encoding(s, bytes, wrapped),
        forall|k: int| 0 <= k < t.len() ==> is_symbol(#[trigger] t[k]) || is_space(t[k]),
        t.filter(|c: char| is_symbol(c)) == payload(s, wrapped),
    ensures
        decoded(frame(t, wrapped), DecodeConfig { require_wrapper: wrapped, relaxed: true }) == oks(bytes),
{
    let config = DecodeConfig { require_wrapper: wrapped, relaxed: true };
    let offset: nat = if wrapped { 1 } else { 0 };
    let u = frame(t, wrapped);
    if wrapped {
        lemma_framed_body(u, true);
        assert(payload(u, true) =~= t);
    }
    lemma_scan_relaxed(t, offset, config);
    let p = payload(s, wrapped);
    let d = encode_digits(bytes);
    lemma_encode_digits_below(bytes);
    lemma_scan_spelled(p, d, offset, config);
    lemma_scan_symbols(p, offset, config);
    lemma_decoded_clean(u, bytes, config);
}

/// Wrapper enforcement: an unwrapped encoding, decoded with the wrapper
/// required, reports `MissingWrapper` first.
pub proof fn lemma_wrapper_enforcement(s: Seq<char>, bytes: Seq<u8>, relaxed: bool)
    requires
        is_encoding(s, bytes, false),
    ensures
        decoded(s, DecodeConfig { require_wrapper: true, relaxed }).len() > 0,
        decoded(s, DecodeConfig { require_wrapper: true, relaxed })[0] == Err::<u8, DecodeError>(
            DecodeError::MissingWrapper,
        ),
{
    if s.len() > 0 {
        lemma_encode_digits_below(bytes);
        assert(encode_digits(bytes)[0] < BASE);
        assert(s[0] as u32 == FIRST_CODE + encode_digits(bytes)[0]);
        assert(s[0] != PREFIX);
    }
    assert(!has_prefix(s));
}

/// The results of digits that leave one digit over after whole groups end
/// with `InvalidLength`.
proof fn lemma_lone_digit_results(d: Seq<u8>)
    requires
        d.len() % (BLOCK_DIGITS as nat) == 1,
    ensures
        decode_digits(d).len() > 0,
        decode_digits(d).last() == Err::<u8, DecodeError>(DecodeError::InvalidLength),
    decreases d.len(),
{
    if d.len() > BLOCK_DIGITS {
        lemma_lone_digit_results(d.skip(BLOCK_DIGITS as int));
        let a = group_results(d.take(BLOCK_DIGITS as int));
        let b = decode_digits(d.skip(BLOCK_DIGITS as int));
        assert((a + b).last() == b.last());
    } else {
        assert(decode_group(d) == Err::<Seq<u8>, DecodeError>(DecodeError::InvalidLength));
    }
}

/// Length validation holds in both modes: symbols alone whose count leaves
/// one digit over after whole groups decode to the results of their digits,
/// with no character error, and the last result is `InvalidLength`.
pub proof fn lemma_lone_digit_rejected(s: Seq<char>, relaxed: bool)
    requires
        forall|k: int| 0 <= k < s.len() ==> is_symbol(#[trigger] s[k]),
        s.len() % (BLOCK_DIGITS as nat) == 1,
    ensures
        decoded(s, DecodeConfig { require_wrapper: false, relaxed }) == decode_digits(digits_of(s)),
        decoded(s, DecodeConfig { require_wrapper: false, relaxed }).last() == Err::<u8, DecodeError>(
            DecodeError::InvalidLength,
        ),
{
    let config = DecodeConfig { require_wrapper: false, relaxed };
    lemma_scan_symbols(s, 0, config);
    lemma_lone_digit_results(digits_of(s));
    let e = Seq::<Result<u8, DecodeError>>::empty();
    assert(errs(Seq::<DecodeError>::empty()) =~= e);
    assert(e + e + decode_digits(digits_of(s)) + e =~= decode_digits(digits_of(s)));
}

} // verus!
