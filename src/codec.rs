//! Encoding and decoding of whole byte sequences, with the optional wrapper
//! and the relaxed decoding mode.
use vstd::prelude::*;
use vstd::slice::slice_subrange;
use crate::alphabet::{
    lemma_valid_char, digit_of, is_marker, is_symbol, spells, symbol_for, value_for, BASE, PREFIX, SUFFIX,
};
use crate::block::{
    all_below, decode_block, decode_group, encode_block, encode_group, lemma_group_round_trip,
    result_view, DecodeError, BLOCK_BYTES, BLOCK_DIGITS,
};

verus! {

/// Settings of an encoding run.
#[derive(Debug, Clone, Copy, PartialEq, Eq, Structural)]
pub struct EncodeConfig {
    /// Frame the output with the prefix and suffix markers.
    pub add_wrapper: bool,
}

impl EncodeConfig {
    /// No wrapper.
    pub fn new() -> (r: EncodeConfig)
        ensures
            !r.add_wrapper,
    {
        EncodeConfig { add_wrapper: false }
    }
}

/// Settings of a decoding run.
#[derive(Debug, Clone, Copy, PartialEq, Eq, Structural)]
pub struct DecodeConfig {
    /// The input must start with the prefix marker and end with the suffix marker.
    pub require_wrapper: bool,
    /// Characters outside the alphabet are skipped instead of rejected.
    pub relaxed: bool,
}

impl DecodeConfig {
    /// No wrapper, strict.
    pub fn new() -> (r: DecodeConfig)
        ensures
            !r.require_wrapper,
            !r.relaxed,
    {
        DecodeConfig { require_wrapper: false, relaxed: false }
    }
}

/// The digits of a byte sequence: one group for each six bytes, then one
/// shorter group for what is left.
pub open spec fn encode_digits(bytes: Seq<u8>) -> Seq<u8>
    decreases bytes.len(),
{
    if bytes.len() == 0 {
        Seq::empty()
    } else if bytes.len() <= BLOCK_BYTES {
        encode_group(bytes)
    } else {
        encode_group(bytes.take(BLOCK_BYTES as int)) + encode_digits(
            bytes.skip(BLOCK_BYTES as int),
        )
    }
}

/// The symbols between the markers of `s`, or all of `s` when unwrapped.
pub open spec fn payload(s: Seq<char>, wrapped: bool) -> Seq<char> {
    if wrapped {
        s.subrange(1, s.len() - 1)
    } else {
        s
    }
}

/// `s` starts with the prefix marker and ends with the suffix marker.
pub open spec fn is_framed(s: Seq<char>) -> bool {
    s.len() >= 2 && s[0] == PREFIX && s.last() == SUFFIX
}

/// `s` is the encoding of `bytes`, framed when `wrapped`.
pub open spec fn is_encoding(s: Seq<char>, bytes: Seq<u8>, wrapped: bool) -> bool {
    &&& wrapped ==> is_framed(s)
    &&& spells(payload(s, wrapped), encode_digits(bytes))
}

/// The digits of the accepted characters of `s`, which starts at `offset`
/// in the input, and one error for each character that `config` rejects,
/// in input order.
pub open spec fn scan(s: Seq<char>, offset: nat, config: DecodeConfig) -> (Seq<u8>, Seq<DecodeError>)
    decreases s.len(),
{
    if s.len() == 0 {
        (Seq::empty(), Seq::empty())
    } else {
        let prev = scan(s.drop_last(), offset, config);
        let c = s.last();
        if is_symbol(c) {
            (prev.0.push(digit_of(c)), prev.1)
        } else if config.require_wrapper && is_marker(c) {
            (prev.0, prev.1.push(DecodeError::UnexpectedWrapper))
        } else if config.relaxed {
            prev
        } else {
            (
                prev.0,
                prev.1.push(DecodeError::InvalidSymbol { symbol: c, position: (offset + s.len() - 1) as usize }),
            )
        }
    }
}

/// Each byte as a successful result.
pub open spec fn oks(b: Seq<u8>) -> Seq<Result<u8, DecodeError>> {
    b.map_values(|x: u8| Ok::<u8, DecodeError>(x))
}

/// Each error as a failed result.
pub open spec fn errs(e: Seq<DecodeError>) -> Seq<Result<u8, DecodeError>> {
    e.map_values(|x: DecodeError| Err::<u8, DecodeError>(x))
}

/// The results of one group of digits: its bytes, or its one error.
pub open spec fn group_results(d: Seq<u8>) -> Seq<Result<u8, DecodeError>> {
    match decode_group(d) {
        Ok(b) => oks(b),
        Err(e) => seq![Err::<u8, DecodeError>(e)],
    }
}

/// The results of a digit sequence, group by group: seven digits each, then
/// one shorter group. A failing group does not stop the groups after it.
pub open spec fn decode_digits(d: Seq<u8>) -> Seq<Result<u8, DecodeError>>
    decreases d.len(),
{
    if d.len() == 0 {
        Seq::empty()
    } else if d.len() <= BLOCK_DIGITS {
        group_results(d)
    } else {
        group_results(d.take(BLOCK_DIGITS as int)) + decode_digits(d.skip(BLOCK_DIGITS as int))
    }
}

/// `s` opens with the prefix marker.
pub open spec fn has_prefix(s: Seq<char>) -> bool {
    s.len() > 0 && s[0] == PREFIX
}

/// `s` closes with the suffix marker.
pub open spec fn has_suffix(s: Seq<char>) -> bool {
    s.len() > 0 && s.last() == SUFFIX
}

/// The input without the prefix marker that a required wrapper opens with.
pub open spec fn after_prefix(s: Seq<char>, config: DecodeConfig) -> Seq<char> {
    if config.require_wrapper && has_prefix(s) {
        s.skip(1)
    } else {
        s
    }
}

/// Where the characters that carry digits start in the input.
pub open spec fn body_offset(s: Seq<char>, config: DecodeConfig) -> nat {
    if config.require_wrapper && has_prefix(s) {
        1
    } else {
        0
    }
}

/// The characters that carry digits: the input without the markers of a
/// required wrapper.
pub open spec fn body(s: Seq<char>, config: DecodeConfig) -> Seq<char> {
    let r = after_prefix(s, config);
    if config.require_wrapper && has_suffix(r) {
        r.drop_last()
    } else {
        r
    }
}

/// What decoding `s` under `config` gives, one result per unit and without
/// stopping at a failure: `MissingWrapper` first where a required prefix is
/// absent, then an error for each rejected character, then the results of
/// each group of digits, then `MissingWrapper` where a required suffix is
/// absent.
pub open spec fn decoded(s: Seq<char>, config: DecodeConfig) -> Seq<Result<u8, DecodeError>> {
    let missing = seq![Err::<u8, DecodeError>(DecodeError::MissingWrapper)];
    let front = if config.require_wrapper && !has_prefix(s) {
        missing
    } else {
        Seq::empty()
    };
    let back = if config.require_wrapper && !has_suffix(after_prefix(s, config)) {
        missing
    } else {
        Seq::empty()
    };
    let sc = scan(body(s, config), body_offset(s, config), config);
    front + errs(sc.1) + decode_digits(sc.0) + back
}

/// Spelled sequences concatenate.
pub(crate) proof fn lemma_spells_concat(a: Seq<char>, da: Seq<u8>, b: Seq<char>, db: Seq<u8>)
    requires
        spells(a, da),
        spells(b, db),
    ensures
        spells(a + b, da + db),
{
    assert forall|i: int| 0 <= i < (a + b).len() implies (#[trigger] (a + b)[i]) as u32
        == crate::alphabet::FIRST_CODE + (da + db)[i] by {
        if i >= a.len() {
            assert(b[i - a.len()] as u32 == crate::alphabet::FIRST_CODE + db[i - a.len()]);
        } else {
            assert(a[i] as u32 == crate::alphabet::FIRST_CODE + da[i]);
        }
    }
}

/// Appends to `out` the symbols of `digits`.
pub(crate) fn push_symbols(out: &mut Vec<char>, digits: &Vec<u8>)
    requires
        all_below(digits@, BASE as nat),
    ensures
        final(out)@.len() == old(out)@.len() + digits@.len(),
        final(out)@.take(old(out)@.len() as int) == old(out)@,
        spells(final(out)@.skip(old(out)@.len() as int), digits@),
{
    let ghost start = out@.len();
    let mut j: usize = 0;
    while j < digits.len()
        invariant
            j <= digits@.len(),
            all_below(digits@, BASE as nat),
            out@.len() == start + j,
            out@.take(start as int) == old(out)@,
            spells(out@.skip(start as int), digits@.take(j as int)),
        decreases digits@.len() - j,
    {
        let c = symbol_for(digits[j]);
        let ghost before = out@;
        out.push(c);
        proof {
            assert(out@.take(start as int) =~= before.take(start as int));
            assert(out@.skip(start as int) =~= before.skip(start as int).push(c));
            assert(digits@.take(j + 1) =~= digits@.take(j as int).push(digits@[j as int]));
            let s = out@.skip(start as int);
            let d = digits@.take(j + 1);
            assert forall|i: int| 0 <= i < s.len() implies (#[trigger] s[i]) as u32
                == crate::alphabet::FIRST_CODE + d[i] by {
                if i < j {
                    assert(before.skip(start as int)[i] as u32 == crate::alphabet::FIRST_CODE
                        + digits@.take(j as int)[i]);
                }
            }
        }
        j += 1;
    }
    proof {
        assert(digits@.take(j as int) =~= digits@);
    }
}

/// The digits of the bytes from `i` on: the group that starts at `i`, then
/// the rest.
proof fn lemma_encode_step(bytes: Seq<u8>, i: int, end: int)
    requires
        0 <= i < end <= bytes.len(),
        end == (if i + (BLOCK_BYTES as int) < bytes.len() { i + BLOCK_BYTES as int } else { bytes.len() as int }),
    ensures
        encode_digits(bytes.subrange(i, bytes.len() as int)) == encode_group(bytes.subrange(i, end))
            + encode_digits(bytes.subrange(end, bytes.len() as int)),
{
    let rest = bytes.subrange(i, bytes.len() as int);
    if rest.len() <= BLOCK_BYTES {
        assert(bytes.subrange(i, end) =~= rest);
        assert(bytes.subrange(end, bytes.len() as int) =~= Seq::<u8>::empty());
        assert(encode_group(rest) + Seq::<u8>::empty() =~= encode_group(rest));
    } else {
        assert(rest.take(BLOCK_BYTES as int) =~= bytes.subrange(i, end));
        assert(rest.skip(BLOCK_BYTES as int) =~= bytes.subrange(end, bytes.len() as int));
    }
}

/// Encodes `bytes` as base-116 symbols, framed by the markers when the
/// configuration asks for a wrapper.
pub fn encode(bytes: &[u8], config: EncodeConfig) -> (r: Vec<char>)
    ensures
        is_encoding(r@, bytes@, config.add_wrapper),
{
    let mut out: Vec<char> = Vec::new();
    let start: usize = if config.add_wrapper { 1 } else { 0 };
    if config.add_wrapper {
        out.push(PREFIX);
    }
    let ghost done: Seq<u8> = Seq::empty();
    let mut i: usize = 0;
    proof {
        assert(bytes@.subrange(0, bytes@.len() as int) =~= bytes@);
        assert(done + encode_digits(bytes@) =~= encode_digits(bytes@));
    }
    while i < bytes.len()
        invariant
            i <= bytes@.len(),
            start == (if config.add_wrapper { 1usize } else { 0usize }),
            out@.len() == start + done.len(),
            config.add_wrapper ==> out@[0] == PREFIX,
            spells(out@.skip(start as int), done),
            encode_digits(bytes@) == done + encode_digits(bytes@.subrange(i as int, bytes@.len() as int)),
        decreases bytes@.len() - i,
    {
        let end: usize = if bytes.len() - i > BLOCK_BYTES { i + BLOCK_BYTES } else { bytes.len() };
        let group = slice_subrange(bytes, i, end);
        let digits = encode_block(group);
        proof {
            lemma_encode_step(bytes@, i as int, end as int);
            lemma_group_round_trip(group@);
        }
        let ghost before = out@;
        push_symbols(&mut out, &digits);
        proof {
            assert(out@.skip(start as int) =~= before.skip(start as int) + out@.skip(before.len() as int));
            lemma_spells_concat(before.skip(start as int), done, out@.skip(before.len() as int), digits@);
            if config.add_wrapper {
                assert(out@.take(before.len() as int)[0] == before[0]);
            }
            assert(encode_digits(bytes@) =~= (done + digits@) + encode_digits(bytes@.subrange(end as int, bytes@.len() as int)));
            done = done + digits@;
        }
        i = end;
    }
    proof {
        assert(bytes@.subrange(i as int, bytes@.len() as int) =~= Seq::<u8>::empty());
        assert(done + Seq::<u8>::empty() =~= done);
    }
    if config.add_wrapper {
        let ghost before = out@;
        out.push(SUFFIX);
        proof {
            assert(payload(out@, true) =~= before.skip(1));
        }
    } else {
        proof {
            assert(out@.skip(0) =~= out@);
        }
    }
    out
}

/// The errors of a prefix of `s` begin the errors of `s`.
pub(crate) proof fn lemma_scan_errors_grow(s: Seq<char>, offset: nat, config: DecodeConfig, k: int)
    requires
        0 <= k <= s.len(),
    ensures
        scan(s.take(k), offset, config).1.len() <= scan(s, offset, config).1.len(),
        forall|m: int|
            0 <= m < scan(s.take(k), offset, config).1.len() ==> scan(s, offset, config).1[m]
                == #[trigger] scan(s.take(k), offset, config).1[m],
    decreases s.len(),
{
    if s.len() == k {
        assert(s.take(k) =~= s);
    } else {
        assert(s.drop_last().take(k) =~= s.take(k));
        lemma_scan_errors_grow(s.drop_last(), offset, config, k);
        let prev = scan(s.drop_last(), offset, config).1;
        let cur = scan(s, offset, config).1;
        let c = lemma_valid_char(s.last());
        if is_symbol(c) || (!(config.require_wrapper && is_marker(c)) && config.relaxed) {
            assert(cur == prev);
        } else {
            let pos = (offset + s.len() - 1) as usize;
            let x = if config.require_wrapper && is_marker(c) {
                DecodeError::UnexpectedWrapper
            } else {
                DecodeError::InvalidSymbol { symbol: c, position: pos }
            };
            assert(cur == prev.push(x));
            assert(cur.len() == prev.len() + 1);
            assert(forall|m: int| 0 <= m < prev.len() ==> prev.push(x)[m] == prev[m]);
            assert(forall|m: int| 0 <= m < prev.len() ==> cur[m] == prev[m]);
        }
    }
}

/// One more error adds one more failed result.
proof fn lemma_errs_push(es: Seq<DecodeError>, e: DecodeError)
    ensures
        errs(es.push(e)) == errs(es).push(Err::<u8, DecodeError>(e)),
{
    assert(errs(es.push(e)) =~= errs(es).push(Err::<u8, DecodeError>(e)));
}

/// Appends to `out` the results of one group of digits.
fn push_group_results(out: &mut Vec<Result<u8, DecodeError>>, group: &[u8])
    requires
        all_below(group@, BASE as nat),
    ensures
        final(out)@ == old(out)@ + group_results(group@),
{
    match decode_block(group) {
        Err(e) => {
            out.push(Err(e));
            proof {
                assert(out@ =~= old(out)@ + seq![Err::<u8, DecodeError>(e)]);
            }
        },
        Ok(bytes) => {
            let mut j: usize = 0;
            proof {
                assert(old(out)@ + oks(bytes@.take(0)) =~= old(out)@);
            }
            while j < bytes.len()
                invariant
                    j <= bytes@.len(),
                    out@ == old(out)@ + oks(bytes@.take(j as int)),
                decreases bytes@.len() - j,
            {
                let ghost before = out@;
                out.push(Ok(bytes[j]));
                proof {
                    assert(oks(bytes@.take(j + 1)) =~= oks(bytes@.take(j as int)).push(
                        Ok::<u8, DecodeError>(bytes@[j as int]),
                    ));
                    assert(out@ =~= old(out)@ + oks(bytes@.take(j + 1)));
                }
                j += 1;
            }
            proof {
                assert(bytes@.take(j as int) =~= bytes@);
            }
        },
    }
}

/// Appends to `out` the results of a digit sequence, group by group.
fn decode_digit_groups(digits: &[u8], out: &mut Vec<Result<u8, DecodeError>>)
    requires
        all_below(digits@, BASE as nat),
    ensures
        final(out)@ == old(out)@ + decode_digits(digits@),
{
    let mut i: usize = 0;
    proof {
        assert(digits@.subrange(0, digits@.len() as int) =~= digits@);
    }
    while i < digits.len()
        invariant
            i <= digits@.len(),
            all_below(digits@, BASE as nat),
            old(out)@ + decode_digits(digits@) == out@ + decode_digits(
                digits@.subrange(i as int, digits@.len() as int),
            ),
        decreases digits@.len() - i,
    {
        let end: usize = if digits.len() - i > BLOCK_DIGITS { i + BLOCK_DIGITS } else { digits.len() };
        let group = slice_subrange(digits, i, end);
        let ghost rest = digits@.subrange(i as int, digits@.len() as int);
        let ghost after = digits@.subrange(end as int, digits@.len() as int);
        proof {
            assert(all_below(group@, BASE as nat));
            if rest.len() <= BLOCK_DIGITS {
                assert(group@ =~= rest);
                assert(after =~= Seq::<u8>::empty());
                assert(group_results(rest) + decode_digits(after) =~= group_results(rest));
            } else {
                assert(rest.take(BLOCK_DIGITS as int) =~= group@);
                assert(rest.skip(BLOCK_DIGITS as int) =~= after);
            }
            assert(decode_digits(rest) == group_results(group@) + decode_digits(after));
        }
        let ghost before = out@;
        push_group_results(out, group);
        proof {
            assert(before + (group_results(group@) + decode_digits(after)) =~= (before
                + group_results(group@)) + decode_digits(after));
        }
        i = end;
    }
    proof {
        assert(digits@.subrange(i as int, digits@.len() as int) =~= Seq::<u8>::empty());
        assert(out@ + decode_digits(Seq::<u8>::empty()) =~= out@);
    }
}

/// Decodes base-116 symbols under `config`, one result per unit: a failure
/// is reported and decoding goes on, so the caller may stop at the first
/// error or collect them all.
pub fn decode(symbols: &[char], config: DecodeConfig) -> (r: Vec<Result<u8, DecodeError>>)
    ensures
        r@ == decoded(symbols@, config),
{
    let n = symbols.len();
    let mut out: Vec<Result<u8, DecodeError>> = Vec::new();
    let has_front = n > 0 && symbols[0] == PREFIX;
    let start: usize = if config.require_wrapper && has_front { 1 } else { 0 };
    let has_back = start < n && symbols[n - 1] == SUFFIX;
    let stop: usize = if config.require_wrapper && has_back { n - 1 } else { n };
    if config.require_wrapper && !has_front {
        out.push(Err(DecodeError::MissingWrapper));
    }
    let ghost s = symbols@;
    let ghost bd = body(s, config);
    let ghost front = out@;
    let ghost back = if config.require_wrapper && !has_suffix(after_prefix(s, config)) {
        seq![Err::<u8, DecodeError>(DecodeError::MissingWrapper)]
    } else {
        Seq::<Result<u8, DecodeError>>::empty()
    };
    proof {
        assert(has_prefix(s) == has_front);
        if config.require_wrapper {
            assert(after_prefix(s, config) =~= s.subrange(start as int, n as int));
            if start < n {
                assert(after_prefix(s, config).last() == s[n - 1]);
            }
            assert(has_suffix(after_prefix(s, config)) == has_back);
        }
        assert(bd =~= s.subrange(start as int, stop as int));
        assert(front =~= (if config.require_wrapper && !has_prefix(s) {
            seq![Err::<u8, DecodeError>(DecodeError::MissingWrapper)]
        } else {
            Seq::empty()
        }));
        assert(bd.take(0) =~= Seq::<char>::empty());
        assert(front + errs(Seq::empty()) =~= front);
    }
    let mut digits: Vec<u8> = Vec::new();
    let ghost mut errors: Seq<DecodeError> = Seq::empty();
    let mut i: usize = start;
    while i < stop
        invariant
            start <= i <= stop <= n,
            n == symbols@.len(),
            s == symbols@,
            bd == s.subrange(start as int, stop as int),
            bd == body(s, config),
            start as nat == body_offset(s, config),
            decoded(s, config) == front + errs(scan(bd, start as nat, config).1) + decode_digits(
                scan(bd, start as nat, config).0,
            ) + back,
            scan(bd.take(i - start), start as nat, config) == (digits@, errors),
            out@ == front + errs(errors),
            all_below(digits@, BASE as nat),
            back == (if config.require_wrapper && !has_back {
                seq![Err::<u8, DecodeError>(DecodeError::MissingWrapper)]
            } else {
                Seq::<Result<u8, DecodeError>>::empty()
            }),
        decreases stop - i,
    {
        let c = symbols[i];
        let ghost t = bd.take(i + 1 - start);
        proof {
            lemma_valid_char(c);
            assert(t.drop_last() =~= bd.take(i - start));
            assert(t.last() == c);
        }
        match value_for(c) {
            Some(d) => {
                digits.push(d);
                proof {
                    assert(all_below(digits@, BASE as nat));
                }
            },
            None => {
                if config.require_wrapper && (c == PREFIX || c == SUFFIX) {
                    out.push(Err(DecodeError::UnexpectedWrapper));
                    proof {
                        lemma_errs_push(errors, DecodeError::UnexpectedWrapper);
                        errors = errors.push(DecodeError::UnexpectedWrapper);
                        assert(out@ =~= front + errs(errors));
                    }
                } else if !config.relaxed {
                    out.push(Err(DecodeError::InvalidSymbol { symbol: c, position: i }));
                    proof {
                        let e = DecodeError::InvalidSymbol { symbol: c, position: i };
                        assert(out@.last() == Err::<u8, DecodeError>(e));
                        lemma_errs_push(errors, e);
                        errors = errors.push(e);
                        assert(out@ =~= front + errs(errors));
                    }
                }
            },
        }
        i += 1;
    }
    proof {
        assert(bd.take(stop - start) =~= bd);
    }
    decode_digit_groups(digits.as_slice(), &mut out);
    if config.require_wrapper && !has_back {
        out.push(Err(DecodeError::MissingWrapper));
    }
    proof {
        assert(out@ =~= front + errs(errors) + decode_digits(digits@) + back);
    }
    out
}

} // verus!
