use offers_studio::find_utf8_boundary;
use offers_studio::stream::StreamDecoder;

#[test]
fn boundary_ascii_only() {
    assert_eq!(find_utf8_boundary(b"hello"), 5);
}

#[test]
fn boundary_empty() {
    assert_eq!(find_utf8_boundary(b""), 0);
}

#[test]
fn boundary_incomplete_three_byte_tail() {
    // the first two bytes of a three-byte character must be withheld
    assert_eq!(find_utf8_boundary(&[0xE2, 0x82]), 0);
    assert_eq!(find_utf8_boundary(&[0x41, 0xE2, 0x82]), 1);
}

#[test]
fn boundary_complete_three_byte_tail() {
    assert_eq!(find_utf8_boundary(&[0xE2, 0x82, 0xAC]), 3);
    assert_eq!(find_utf8_boundary(&[0x41, 0xE2, 0x82, 0xAC]), 4);
}

#[test]
fn boundary_incomplete_two_and_four_byte_tails() {
    assert_eq!(find_utf8_boundary(&[0xC3]), 0);
    assert_eq!(find_utf8_boundary(&[0x68, 0xC3]), 1);
    assert_eq!(find_utf8_boundary(&[0xF0, 0x9F, 0x92]), 0);
    assert_eq!(find_utf8_boundary(&[0xF0, 0x9F, 0x92, 0xA9]), 4);
}

#[test]
fn boundary_all_continuation_bytes() {
    assert_eq!(find_utf8_boundary(&[0x82, 0x82, 0x82]), 0);
}

#[test]
fn decoder_incomplete_then_completed() {
    // an incomplete three-byte sequence yields no emission; completing it
    // yields exactly the completed character
    let mut d = StreamDecoder::new();
    let first = d.push(&[0xE2, 0x82]);
    assert!(first.is_none());
    let second = d.push(&[0xAC]);
    assert_eq!(second.as_deref(), Some("\u{20AC}"));
    let last = d.finish();
    assert!(last.is_none());
}

#[test]
fn decoder_split_character_reassembled() {
    // "héllo" with 'é' split across two reads of 1 and 5 bytes: the
    // chunks concatenate to exactly "héllo", with no replacement character
    let bytes = "héllo".as_bytes();
    assert_eq!(bytes.len(), 6);
    let mut d = StreamDecoder::new();
    let mut text = String::new();
    if let Some(c) = d.push(&bytes[..1]) {
        text.push_str(&c);
    }
    if let Some(c) = d.push(&bytes[1..]) {
        text.push_str(&c);
    }
    if let Some(c) = d.finish() {
        text.push_str(&c);
    }
    assert_eq!(text, "héllo");
    assert!(!text.contains('\u{FFFD}'));
}

#[test]
fn decoder_invalid_byte_replaced() {
    let mut d = StreamDecoder::new();
    let chunk = d.push(&[0xFF, 0x41]);
    assert_eq!(chunk.as_deref(), Some("\u{FFFD}A"));
}

#[test]
fn decoder_pending_flushed_lossily_at_end() {
    // invalid trailing bytes are replaced at end of stream, never dropped
    let mut d = StreamDecoder::new();
    assert!(d.push(&[0xE2, 0x82]).is_none());
    let last = d.finish();
    assert_eq!(last.as_deref(), Some("\u{FFFD}"));
}

#[test]
fn decoder_concatenation_matches_lossy_decoding() {
    // arbitrary split points across a mixed stream: the concatenation of
    // all chunks equals the lossy decoding of the whole byte stream
    let stream: Vec<u8> = {
        let mut v = Vec::new();
        v.extend_from_slice("abc".as_bytes());
        v.push(0xFF);
        v.extend_from_slice("déf".as_bytes());
        v.extend_from_slice(&[0xF0, 0x9F, 0x92, 0xA9]);
        v.extend_from_slice(&[0xE2, 0x82]);
        v
    };
    for split in 0..=stream.len() {
        let mut d = StreamDecoder::new();
        let mut text = String::new();
        if let Some(c) = d.push(&stream[..split]) {
            text.push_str(&c);
        }
        if let Some(c) = d.push(&stream[split..]) {
            text.push_str(&c);
        }
        if let Some(c) = d.finish() {
            text.push_str(&c);
        }
        assert_eq!(text, String::from_utf8_lossy(&stream));
    }
}

#[test]
fn decoder_two_splits_match_lossy_decoding() {
    // every way of cutting a mixed stream into three reads yields the
    // same concatenated text as decoding the whole stream at once
    let stream: Vec<u8> = {
        let mut v = Vec::new();
        v.extend_from_slice("a€".as_bytes());
        v.extend_from_slice(&[0xE0, 0x80, 0xC2]);
        v.extend_from_slice("é".as_bytes());
        v
    };
    let expected = String::from_utf8_lossy(&stream).into_owned();
    for i in 0..=stream.len() {
        for j in i..=stream.len() {
            let mut d = StreamDecoder::new();
            let mut text = String::new();
            for part in [&stream[..i], &stream[i..j], &stream[j..]] {
                if let Some(c) = d.push(part) {
                    text.push_str(&c);
                }
            }
            if let Some(c) = d.finish() {
                text.push_str(&c);
            }
            assert_eq!(text, expected);
        }
    }
}

#[test]
fn decoder_empty_read_emits_nothing() {
    let mut d = StreamDecoder::new();
    assert!(d.push(&[]).is_none());
    assert!(d.is_live());
    assert!(d.finish().is_none());
    assert!(!d.is_live());
}
