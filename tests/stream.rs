use base116::codec::{encode, EncodeConfig};
use base116::stream::Encoder;

fn streamed(bytes: &[u8], add_wrapper: bool) -> Vec<char> {
    let mut enc = Encoder::new(EncodeConfig { add_wrapper });
    let mut out = Vec::new();
    for b in bytes {
        out.extend(enc.push(*b));
    }
    out.extend(enc.finish());
    out
}

#[test]
fn stream_matches_whole_encoding() {
    for n in 0..30usize {
        let bytes: Vec<u8> = (0..n).map(|i| (i * 53 + 7) as u8).collect();
        for w in [false, true] {
            assert_eq!(streamed(&bytes, w), encode(&bytes, EncodeConfig { add_wrapper: w }));
        }
    }
}

#[test]
fn stream_emits_per_full_block() {
    let mut enc = Encoder::new(EncodeConfig { add_wrapper: false });
    for _ in 0..5 {
        assert!(enc.push(0xFF).is_empty());
    }
    assert_eq!(enc.push(0xFF), "\u{173}\u{13D}\u{12D}\u{11B}\u{155}\u{15B}\u{133}".chars().collect::<Vec<char>>());
    assert!(enc.finish().is_empty());
}

#[test]
fn stream_of_nothing_wrapped() {
    let enc = Encoder::new(EncodeConfig { add_wrapper: true });
    assert_eq!(enc.finish(), vec!['\u{1F1}', '\u{1F2}']);
}
