use base116::alphabet::{symbol_for, value_for, PREFIX, SUFFIX};
use base116::block::{decode_block, encode_block, DecodeError};
use base116::codec::{decode, encode, DecodeConfig, EncodeConfig};

fn chars(s: &str) -> Vec<char> {
    s.chars().collect()
}

fn plain() -> EncodeConfig {
    EncodeConfig { add_wrapper: false }
}

fn wrapped() -> EncodeConfig {
    EncodeConfig { add_wrapper: true }
}

fn strict(require_wrapper: bool) -> DecodeConfig {
    DecodeConfig { require_wrapper, relaxed: false }
}

fn relaxed(require_wrapper: bool) -> DecodeConfig {
    DecodeConfig { require_wrapper, relaxed: true }
}

fn oks(b: &[u8]) -> Vec<Result<u8, DecodeError>> {
    b.iter().map(|x| Ok(*x)).collect()
}

fn sample(n: usize) -> Vec<u8> {
    (0..n).map(|i| (i * 37 + 11) as u8).collect()
}

#[test]
fn reference_vector_single_zero() {
    assert_eq!(encode(&[0x00], plain()), chars("\u{100}\u{100}"));
}

#[test]
fn reference_vector_two_ff() {
    assert_eq!(encode(&[0xFF, 0xFF], plain()), chars("\u{104}\u{164}\u{16F}"));
}

#[test]
fn reference_vector_full_block() {
    assert_eq!(
        encode(&[0xFF; 6], plain()),
        chars("\u{173}\u{13D}\u{12D}\u{11B}\u{155}\u{15B}\u{133}")
    );
    assert_eq!(encode_block(&[0x01, 0x02, 0x03, 0x04, 0x05]), vec![0, 23, 105, 26, 42, 29]);
}

#[test]
fn reference_vector_wrapped() {
    assert_eq!(encode(&[0x00], wrapped()), chars("\u{1F1}\u{100}\u{100}\u{1F2}"));
}

#[test]
fn empty_input() {
    assert_eq!(encode(&[], plain()), Vec::<char>::new());
    assert_eq!(encode(&[], wrapped()), vec![PREFIX, SUFFIX]);
    assert_eq!(decode(&[], strict(false)), vec![]);
    assert_eq!(decode(&[PREFIX, SUFFIX], strict(true)), vec![]);
}

#[test]
fn round_trip_many_lengths() {
    for n in 0..40 {
        let b = sample(n);
        for w in [false, true] {
            let e = encode(&b, EncodeConfig { add_wrapper: w });
            assert_eq!(decode(&e, strict(w)), oks(&b));
            assert_eq!(decode(&e, relaxed(w)), oks(&b));
        }
    }
}

#[test]
fn lengths_follow_the_block_rule() {
    for n in 0..20usize {
        let e = encode(&sample(n), plain());
        let expected = 7 * (n / 6) + if n % 6 == 0 { 0 } else { n % 6 + 1 };
        assert_eq!(e.len(), expected);
    }
}

#[test]
fn tail_blocks_round_trip() {
    for k in 1..6usize {
        for fill in [0x00u8, 0x7F, 0xFF] {
            let b = vec![fill; k];
            let d = encode_block(&b);
            assert_eq!(d.len(), k + 1);
            assert_eq!(decode_block(&d), Ok(b));
        }
    }
}

#[test]
fn strict_rejects_foreign_character() {
    let mut e = encode(&sample(10), plain());
    e[4] = '#';
    let r = decode(&e, strict(false));
    assert_eq!(r[0], Err(DecodeError::InvalidSymbol { symbol: '#', position: 4 }));
    let symbol_errors = r
        .iter()
        .filter(|x| matches!(x, Err(DecodeError::InvalidSymbol { .. })))
        .count();
    assert_eq!(symbol_errors, 1);
    let mut w = encode(&sample(10), wrapped());
    w[3] = ' ';
    assert_eq!(decode(&w, strict(true))[0], Err(DecodeError::InvalidSymbol { symbol: ' ', position: 3 }));
}

#[test]
fn relaxed_skips_whitespace() {
    let b = sample(20);
    let e = encode(&b, plain());
    let mut spaced = vec!['\n'];
    for c in &e {
        spaced.push(*c);
        spaced.push(' ');
        spaced.push('\t');
    }
    spaced.push('\r');
    assert_eq!(decode(&spaced, relaxed(false)), oks(&b));
    let mut framed = vec![PREFIX];
    framed.extend(spaced.iter());
    framed.push(SUFFIX);
    assert_eq!(decode(&framed, relaxed(true)), oks(&b));
}

#[test]
fn wrapper_required_but_absent() {
    let b = sample(9);
    let e = encode(&b, plain());
    let missing = Err(DecodeError::MissingWrapper);
    let mut expected = vec![missing.clone()];
    expected.extend(oks(&b));
    expected.push(missing.clone());
    assert_eq!(decode(&e, strict(true)), expected);
    assert_eq!(decode(&e, relaxed(true)), expected);
    let w = encode(&b, wrapped());
    assert_eq!(decode(&w, strict(true)), oks(&b));
    assert_eq!(decode(&[PREFIX], strict(true)), vec![missing.clone()]);
    let mut open_only = w.clone();
    open_only.pop();
    let mut tail_missing = oks(&b);
    tail_missing.push(missing);
    assert_eq!(decode(&open_only, strict(true)), tail_missing);
}

#[test]
fn marker_inside_wrapped_payload() {
    let s = vec![PREFIX, '\u{100}', PREFIX, '\u{100}', SUFFIX];
    let expected = vec![Err(DecodeError::UnexpectedWrapper), Ok(0x00)];
    assert_eq!(decode(&s, strict(true)), expected);
    assert_eq!(decode(&s, relaxed(true)), expected);
}

#[test]
fn markers_are_plain_characters_when_not_required() {
    let w = encode(&[0x00], wrapped());
    assert_eq!(
        decode(&w, strict(false)),
        vec![
            Err(DecodeError::InvalidSymbol { symbol: PREFIX, position: 0 }),
            Err(DecodeError::InvalidSymbol { symbol: SUFFIX, position: 3 }),
            Ok(0x00),
        ]
    );
    assert_eq!(decode(&w, relaxed(false)), vec![Ok(0x00)]);
}

#[test]
fn single_digit_group_has_no_length() {
    assert_eq!(decode(&chars("\u{100}"), strict(false)), vec![Err(DecodeError::InvalidLength)]);
    let mut e = encode(&sample(6), plain());
    e.push('\u{100}');
    let mut expected = oks(&sample(6));
    expected.push(Err(DecodeError::InvalidLength));
    assert_eq!(decode(&e, strict(false)), expected);
    assert_eq!(decode(&e, relaxed(false)), expected);
    assert_eq!(decode_block(&[]), Err(DecodeError::InvalidLength));
    assert_eq!(decode_block(&[0; 8]), Err(DecodeError::InvalidLength));
}

#[test]
fn overflowing_group() {
    assert_eq!(decode(&chars("\u{173}\u{173}"), strict(false)), vec![Err(DecodeError::Overflow)]);
    assert_eq!(decode_block(&[115; 7]), Err(DecodeError::Overflow));
}

#[test]
fn alphabet_is_a_bijection() {
    for v in 0..116u8 {
        let c = symbol_for(v);
        assert_eq!(c as u32, 0x100 + v as u32);
        assert_eq!(value_for(c), Some(v));
    }
    assert_eq!(value_for('\u{FF}'), None);
    assert_eq!(value_for('\u{174}'), None);
    assert_eq!(value_for(PREFIX), None);
    assert_eq!(value_for(SUFFIX), None);
}

#[test]
fn default_configs() {
    assert!(!EncodeConfig::new().add_wrapper);
    let d = DecodeConfig::new();
    assert!(!d.require_wrapper && !d.relaxed);
}

#[test]
fn decoding_goes_on_after_a_failing_group() {
    let mut s: Vec<char> = vec!['\u{173}'; 7];
    s.push('\u{100}');
    for r in [false, true] {
        assert_eq!(
            decode(&s, DecodeConfig { require_wrapper: false, relaxed: r }),
            vec![Err(DecodeError::Overflow), Err(DecodeError::InvalidLength)]
        );
    }
    let mut t: Vec<char> = vec!['\u{173}'; 7];
    t.extend(encode(&[1, 2, 3], plain()));
    let mut expected = vec![Err(DecodeError::Overflow)];
    expected.extend(oks(&[1, 2, 3]));
    assert_eq!(decode(&t, strict(false)), expected);
}

#[test]
fn strict_reports_every_foreign_character() {
    let b = sample(12);
    let mut e = encode(&b, plain());
    e.insert(3, '!');
    e.insert(9, '?');
    let mut expected = vec![
        Err(DecodeError::InvalidSymbol { symbol: '!', position: 3 }),
        Err(DecodeError::InvalidSymbol { symbol: '?', position: 9 }),
    ];
    expected.extend(oks(&b));
    assert_eq!(decode(&e, strict(false)), expected);
}
