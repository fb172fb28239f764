use can_tcp_gateway::raw::{encode_raw_line, encode_raw_line_with_timestamp, parse_raw_line, utc_timestamp};

// -- utc_timestamp -------------------------------------------------------

#[test]
fn test_utc_timestamp_format() {
    let ts = utc_timestamp();
    // HH:MM:SS.mmm  — exactly 12 chars
    assert_eq!(ts.len(), 12, "timestamp length should be 12: {}", ts);
    assert_eq!(&ts.as_bytes()[2], &b':', "ts[2] should be ':'");
    assert_eq!(&ts.as_bytes()[5], &b':', "ts[5] should be ':'");
    assert_eq!(&ts.as_bytes()[8], &b'.', "ts[8] should be '.'");
}

// -- encode_raw_line -----------------------------------------------------

#[test]
fn test_encode_raw_received() {
    let line = encode_raw_line(0x19F51323, &[0x01, 0x02, 0x03, 0x04], 'R');
    let text = String::from_utf8(line).unwrap();
    assert!(text.contains(" R "), "should contain ' R ': {}", text);
    assert!(text.contains("19F51323"), "should contain CAN ID: {}", text);
    assert!(
        text.contains("01 02 03 04"),
        "should contain data: {}",
        text
    );
    assert!(text.ends_with("\r\n"), "should end with CRLF");
}

#[test]
fn test_encode_raw_transmit() {
    let line = encode_raw_line(0x09F805FD, &[0xFF], 'T');
    let text = String::from_utf8(line).unwrap();
    assert!(text.contains(" T "), "should contain ' T ': {}", text);
    assert!(text.contains("09F805FD"));
    assert!(text.contains("FF"));
}

#[test]
fn test_encode_raw_empty_data() {
    let line = encode_raw_line(0x00000001, &[], 'R');
    let text = String::from_utf8(line).unwrap();
    assert!(text.contains("00000001"));
    // timestamp + R + CANID = 3 tokens, no data bytes
    let parts: Vec<&str> = text.trim().split_whitespace().collect();
    assert_eq!(parts.len(), 3, "expected 3 parts: {:?}", parts);
}

#[test]
fn test_encode_raw_full_8_bytes() {
    let data: Vec<u8> = (0..8).collect();
    let line = encode_raw_line(0x1FFFFFFF, &data, 'R');
    let text = String::from_utf8(line).unwrap();
    assert!(text.contains("00 01 02 03 04 05 06 07"));
}

// -- parse_raw_line ------------------------------------------------------

#[test]
fn test_parse_bare_id_and_data() {
    let result = parse_raw_line("19F51323 01 02 03 04");
    assert!(result.is_some());
    let (id, data) = result.unwrap();
    assert_eq!(id, 0x19F51323);
    assert_eq!(data, vec![0x01, 0x02, 0x03, 0x04]);
}

#[test]
fn test_parse_with_timestamp_and_direction() {
    let result = parse_raw_line("12:30:15.482 R 19F51323 01 02 03 04");
    assert!(result.is_some());
    let (id, data) = result.unwrap();
    assert_eq!(id, 0x19F51323);
    assert_eq!(data, vec![0x01, 0x02, 0x03, 0x04]);
}

#[test]
fn test_parse_with_timestamp_and_t() {
    let result = parse_raw_line("00:00:00.000 T 09F805FD FF");
    let (id, data) = result.unwrap();
    assert_eq!(id, 0x09F805FD);
    assert_eq!(data, vec![0xFF]);
}

#[test]
fn test_parse_direction_only_prefix() {
    let result = parse_raw_line("R 19F51323 AA BB");
    let (id, data) = result.unwrap();
    assert_eq!(id, 0x19F51323);
    assert_eq!(data, vec![0xAA, 0xBB]);
}

#[test]
fn test_parse_empty_string() {
    assert!(parse_raw_line("").is_none());
}

#[test]
fn test_parse_whitespace() {
    assert!(parse_raw_line("   ").is_none());
}

#[test]
fn test_parse_invalid_hex() {
    assert!(parse_raw_line("ZZZZZZZZ 01").is_none());
}

#[test]
fn test_parse_no_data_bytes() {
    let result = parse_raw_line("19F51323");
    let (id, data) = result.unwrap();
    assert_eq!(id, 0x19F51323);
    assert!(data.is_empty());
}

#[test]
fn test_parse_timestamp_direction_no_id_returns_none() {
    assert!(parse_raw_line("12:30:15.482 R").is_none());
}

// -- roundtrip -----------------------------------------------------------

#[test]
fn test_roundtrip_received() {
    let can_id: u32 = 0x19F51323;
    let data = vec![0x01, 0x02, 0x03];
    let encoded = String::from_utf8(encode_raw_line(can_id, &data, 'R')).unwrap();
    let (parsed_id, parsed_data) = parse_raw_line(&encoded).unwrap();
    assert_eq!(parsed_id, can_id);
    assert_eq!(parsed_data, data);
}

#[test]
fn test_roundtrip_transmit() {
    let can_id: u32 = 0x09F805FD;
    let data = vec![0xFF, 0x00];
    let encoded = String::from_utf8(encode_raw_line(can_id, &data, 'T')).unwrap();
    let (parsed_id, parsed_data) = parse_raw_line(&encoded).unwrap();
    assert_eq!(parsed_id, can_id);
    assert_eq!(parsed_data, data);
}

// -- exact output with a given timestamp ---------------------------------

#[test]
fn encode_with_timestamp_exact_bytes() {
    let line = encode_raw_line_with_timestamp("12:30:15.482", 0x19F51323, &[0x01, 0x02, 0x03, 0x04], 'R');
    assert_eq!(line, b"12:30:15.482 R 19F51323 01 02 03 04\r\n".to_vec());
}

#[test]
fn encode_with_timestamp_zero_id_and_no_data() {
    let line = encode_raw_line_with_timestamp("00:00:00.000", 0, &[], 'T');
    assert_eq!(line, b"00:00:00.000 T 00000000\r\n".to_vec());
}

#[test]
fn encode_with_timestamp_pads_bytes_and_uses_uppercase() {
    let line = encode_raw_line_with_timestamp("23:59:59.999", 0xABCDEF, &[0x0A, 0xBC, 0x00], 'R');
    assert_eq!(line, b"23:59:59.999 R 00ABCDEF 0A BC 00\r\n".to_vec());
}

#[test]
fn encode_with_timestamp_non_ascii_tag_is_utf8() {
    let line = encode_raw_line_with_timestamp("01:02:03.004", 1, &[2], '\u{e9}');
    let expected = format!("01:02:03.004 {} 00000001 02\r\n", '\u{e9}');
    assert_eq!(line, expected.into_bytes());
}

#[test]
fn encode_line_starts_with_a_timestamp() {
    let line = encode_raw_line(0x100, &[0x42], 'R');
    assert!(line.len() > 12);
    for (i, b) in line[..12].iter().enumerate() {
        match i {
            2 | 5 => assert_eq!(*b, b':'),
            8 => assert_eq!(*b, b'.'),
            _ => assert!(b.is_ascii_digit()),
        }
    }
    assert_eq!(&line[12..], b" R 00000100 42\r\n");
    let two = |i: usize| (line[i] - b'0') * 10 + (line[i + 1] - b'0');
    assert!(two(0) <= 23);
    assert!(two(3) <= 59);
    assert!(two(6) <= 60);
}

// -- parsing edge cases ---------------------------------------------------

#[test]
fn parse_accepts_lowercase_and_plus_sign() {
    assert_eq!(parse_raw_line("+19f51323 +0a ff"), Some((0x19F51323, vec![0x0A, 0xFF])));
}

#[test]
fn parse_rejects_lone_sign_and_minus() {
    assert_eq!(parse_raw_line("+ 01"), None);
    assert_eq!(parse_raw_line("19F51323 -1"), None);
    assert_eq!(parse_raw_line("19F51323 +"), None);
}

#[test]
fn parse_rejects_overflow() {
    assert_eq!(parse_raw_line("100000000 01"), None);
    assert_eq!(parse_raw_line("19F51323 100"), None);
    assert_eq!(parse_raw_line("FFFFFFFF 0FF"), Some((0xFFFFFFFF, vec![0xFF])));
}

#[test]
fn parse_accepts_leading_zeros() {
    assert_eq!(parse_raw_line("0000000000019F51323 0001"), Some((0x19F51323, vec![0x01])));
}

#[test]
fn parse_splits_on_unicode_whitespace() {
    assert_eq!(parse_raw_line("19F51323\u{3000}01\u{a0}02\t03\r\n"), Some((0x19F51323, vec![1, 2, 3])));
}

#[test]
fn parse_skips_timestamp_by_byte_positions() {
    // eleven bytes, with ':' as bytes 2 and 5 and '.' as byte 8
    assert_eq!(parse_raw_line("\u{e9}:22:33.44 R 1F 02"), Some((0x1F, vec![0x02])));
    // a shorter word is the CAN ID, and this one does not read as hex
    assert_eq!(parse_raw_line("12:30:15.4 1F"), None);
}

#[test]
fn parse_direction_tag_alone_or_twice() {
    assert_eq!(parse_raw_line("R"), None);
    assert_eq!(parse_raw_line("12:30:15.482 T"), None);
    assert_eq!(parse_raw_line("R T 1F"), None);
    assert_eq!(parse_raw_line("12:30:15.482 12:30:15.482 1F"), None);
}

#[test]
fn roundtrip_with_blank_tag() {
    let line = encode_raw_line_with_timestamp("10:20:30.400", 0x1FFFFFFF, &[9, 8, 7], ' ');
    let text = String::from_utf8(line).unwrap();
    assert_eq!(parse_raw_line(&text), Some((0x1FFFFFFF, vec![9, 8, 7])));
}

#[test]
fn roundtrip_fails_with_other_tag() {
    let line = encode_raw_line_with_timestamp("10:20:30.400", 0x1234, &[9], 'X');
    let text = String::from_utf8(line).unwrap();
    assert_eq!(parse_raw_line(&text), None);
}

#[test]
fn optional_prefix_gives_same_frame() {
    let bare = parse_raw_line("0CF00400 11 22");
    assert!(bare.is_some());
    assert_eq!(parse_raw_line("12:00:00.000 0CF00400 11 22"), bare);
    assert_eq!(parse_raw_line("T 0CF00400 11 22"), bare);
    assert_eq!(parse_raw_line("12:00:00.000 R 0CF00400 11 22"), bare);
}

// -- agreement with std ---------------------------------------------------

#[test]
fn whitespace_agrees_with_char_is_whitespace() {
    for v in 0u32..=0x10FFFF {
        if let Some(c) = char::from_u32(v) {
            let line = format!("1{}2", c);
            let parsed = parse_raw_line(&line);
            if c.is_whitespace() {
                assert_eq!(parsed, Some((1, vec![2])), "U+{:04X}", v);
            } else if c.is_ascii_hexdigit() {
                assert_eq!(parsed.map(|(_, d)| d.len()), Some(0), "U+{:04X}", v);
            } else {
                assert_eq!(parsed, None, "U+{:04X}", v);
            }
        }
    }
}

#[test]
fn hex_words_agree_with_from_str_radix() {
    let words = [
        "0", "1", "f", "F", "ff", "FF", "100", "+1", "++1", "+", "-", "-1", "1+", "g", "0x1", "00000000000",
        "FFFFFFFF", "100000000", "0FFFFFFFF", "7fffffff", "\u{661}", "1\u{e9}", "+ff", "+100",
    ];
    for id in words.iter() {
        for byte in words.iter() {
            let line = format!("{} {}", id, byte);
            let expected = match (u32::from_str_radix(id, 16), u8::from_str_radix(byte, 16)) {
                (Ok(i), Ok(b)) => Some((i, vec![b])),
                _ => None,
            };
            assert_eq!(parse_raw_line(&line), expected, "{:?}", line);
        }
    }
}
