use invisible_bytes::text::{decode, encode, EncodeError};

#[test]
fn two_chars_two_bytes() {
    let out = encode("hi", &[0, 1]).unwrap();
    let chars: Vec<char> = out.chars().collect();
    assert_eq!(chars, vec!['h', '\u{FE00}', 'i', '\u{FE01}']);
    assert_eq!(decode(&out), vec![0, 1]);
}

#[test]
fn one_char_takes_whole_payload() {
    let out = encode("a", &[16, 255]).unwrap();
    let chars: Vec<char> = out.chars().collect();
    assert_eq!(chars, vec!['a', '\u{E0100}', '\u{E01EF}']);
    assert_eq!(decode(&out), vec![16, 255]);
}

#[test]
fn empty_carrier_is_refused() {
    assert_eq!(encode("", &[1, 2, 3]), Err(EncodeError::EmptyCarrier));
    assert_eq!(encode("", &[]), Err(EncodeError::EmptyCarrier));
}

#[test]
fn empty_payload_leaves_carrier() {
    let out = encode("hello world", &[]).unwrap();
    assert_eq!(out, "hello world");
    assert_eq!(out.chars().count(), 11);
}

#[test]
fn remainder_follows_last_char() {
    let out = encode("ab", &[1, 2, 3]).unwrap();
    let chars: Vec<char> = out.chars().collect();
    assert_eq!(chars, vec!['a', '\u{FE01}', 'b', '\u{FE02}', '\u{FE03}']);
}

#[test]
fn short_payload_leaves_later_chars_bare() {
    let out = encode("abc", &[7]).unwrap();
    let chars: Vec<char> = out.chars().collect();
    assert_eq!(chars, vec!['a', '\u{FE07}', 'b', 'c']);
}

#[test]
fn chunks_count_chars_not_bytes() {
    let out = encode("éü", &[1, 2, 3, 4]).unwrap();
    let chars: Vec<char> = out.chars().collect();
    assert_eq!(chars, vec!['é', '\u{FE01}', '\u{FE02}', 'ü', '\u{FE03}', '\u{FE04}']);
}

#[test]
fn uneven_chunks_keep_every_byte() {
    let payload: Vec<u8> = (0..11u8).collect();
    let out = encode("abcd", &payload).unwrap();
    let chars: Vec<char> = out.chars().collect();
    assert_eq!(chars.len(), 15);
    assert_eq!(chars[0], 'a');
    assert_eq!(chars[3], 'b');
    assert_eq!(chars[6], 'c');
    assert_eq!(chars[9], 'd');
    assert_eq!(decode(&out), payload);
}

#[test]
fn round_trip_all_bytes() {
    let payload: Vec<u8> = (0..=255u8).collect();
    for carrier in ["x", "hi", "hello world", "日本語のテキスト"] {
        let out = encode(carrier, &payload).unwrap();
        assert_eq!(out.chars().count(), carrier.chars().count() + payload.len());
        assert_eq!(decode(&out), payload);
    }
}

#[test]
fn stripping_selectors_gives_carrier() {
    let carrier = "The quick brown fox";
    let out = encode(carrier, b"secret payload").unwrap();
    let visible: String = out
        .chars()
        .filter(|c| !((0xFE00..0xFE10).contains(&(*c as u32)) || (0xE0100..0xE01F0).contains(&(*c as u32))))
        .collect();
    assert_eq!(visible, carrier);
}

#[test]
fn text_without_selectors_decodes_empty() {
    assert_eq!(decode("plain text, nothing hidden"), Vec::<u8>::new());
    assert_eq!(decode(""), Vec::<u8>::new());
}

#[test]
fn decode_skips_surrounding_text() {
    let out = encode("hi", &[0, 1]).unwrap();
    let wrapped = format!("before {out} after");
    assert_eq!(decode(&wrapped), vec![0, 1]);
}
