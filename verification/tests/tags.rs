use chess_extract::{
    parse_u32, tag_value, tc_estimated_seconds, tc_passes, white_space,
    DEFAULT_MIN_TC,
};

#[test]
fn tag_value_extracts_quoted_text() {
    assert_eq!(tag_value(b"[ECO \"B90\"]\n"), Some(&b"B90"[..]));
    assert_eq!(tag_value(b"[Event \"\"]"), Some(&b""[..]));
    assert_eq!(tag_value(b"[White \"a\" \"b\"]"), Some(&b"a"[..]));
}

#[test]
fn tag_value_needs_two_quotes() {
    assert_eq!(tag_value(b"[ECO B90]"), None);
    assert_eq!(tag_value(b"[ECO \"B90]"), None);
    assert_eq!(tag_value(b""), None);
}

#[test]
fn parse_u32_reads_trimmed_numbers() {
    assert_eq!(parse_u32(b"2400"), Some(2400));
    assert_eq!(parse_u32(b"  2400 \t"), Some(2400));
    assert_eq!(parse_u32(b"+5"), Some(5));
    assert_eq!(parse_u32(b"007"), Some(7));
    assert_eq!(parse_u32(b"4294967295"), Some(u32::MAX));
}

#[test]
fn parse_u32_rejects_what_u32_from_str_rejects() {
    assert_eq!(parse_u32(b""), None);
    assert_eq!(parse_u32(b"   "), None);
    assert_eq!(parse_u32(b"-5"), None);
    assert_eq!(parse_u32(b"+"), None);
    assert_eq!(parse_u32(b"12a"), None);
    assert_eq!(parse_u32(b"1 2"), None);
    assert_eq!(parse_u32(b"4294967296"), None);
    assert_eq!(parse_u32(b"99999999999999999999"), None);
    assert_eq!(parse_u32(b"?"), None);
}

#[test]
fn parse_u32_rejects_invalid_utf8() {
    assert_eq!(parse_u32(&[0xff, b'1']), None);
    assert_eq!(parse_u32(&[b'1', 0xc3]), None);
}

#[test]
fn parse_u32_trims_unicode_white_space() {
    assert_eq!(parse_u32("\u{3000}42\u{a0}".as_bytes()), Some(42));
    assert_eq!(parse_u32("\u{0b}7\u{2028}".as_bytes()), Some(7));
    assert_eq!(parse_u32("\u{200b}7".as_bytes()), None);
}

#[test]
fn parse_u32_agrees_with_std() {
    let samples: [&str; 14] = [
        "0", " 1", "+0", "00", "-0", "1_000", "12 ", "\n13\r\n", "1e3", "٣", "４２", "+-1", " + 1",
        "65535",
    ];
    for s in samples.iter() {
        let expected = s.trim().parse::<u32>().ok();
        assert_eq!(parse_u32(s.as_bytes()), expected, "on {:?}", s);
    }
}

#[test]
fn white_space_is_unicode_white_space() {
    for u in 0u32..=0x10ffff {
        if let Some(c) = char::from_u32(u) {
            assert_eq!(white_space(c), c.is_whitespace(), "at U+{:04X}", u);
        }
    }
}

#[test]
fn estimate_is_base_plus_forty_increments() {
    assert_eq!(tc_estimated_seconds(b"180+2"), Some(260));
    assert_eq!(tc_estimated_seconds(b"60+0"), Some(60));
    assert_eq!(tc_estimated_seconds(b"300"), Some(300));
    assert_eq!(tc_estimated_seconds(b" 180 + 2 "), Some(260));
    assert_eq!(tc_estimated_seconds(b"0+1"), Some(40));
}

#[test]
fn estimate_of_unmeasurable_values() {
    assert_eq!(tc_estimated_seconds(b"-"), None);
    assert_eq!(tc_estimated_seconds(b"?"), None);
    assert_eq!(tc_estimated_seconds(b""), None);
    assert_eq!(tc_estimated_seconds(b"180+"), None);
    assert_eq!(tc_estimated_seconds(b"+2"), None);
    assert_eq!(tc_estimated_seconds(b"a+b"), None);
    assert_eq!(tc_estimated_seconds(&[0xff]), None);
    assert_eq!(tc_estimated_seconds(b"180+2+5"), None);
    assert_eq!(tc_estimated_seconds(b"180++"), None);
}

#[test]
fn estimate_too_long_for_u32_is_unmeasured() {
    assert_eq!(tc_estimated_seconds(b"4294967295+0"), Some(u32::MAX));
    assert_eq!(tc_estimated_seconds(b"4294967255+1"), Some(u32::MAX));
    assert_eq!(tc_estimated_seconds(b"4294967256+1"), None);
    assert_eq!(tc_estimated_seconds(b"4294967295+1"), None);
    assert_eq!(tc_estimated_seconds(b"0+107374183"), None);
    assert!(tc_passes(b"4294967295+1", 180, true));
    assert!(tc_passes(b"0+107374183", u32::MAX, false));
}

#[test]
fn correspondence_follows_the_flag() {
    assert!(tc_passes(b"-", DEFAULT_MIN_TC, true));
    assert!(!tc_passes(b"-", DEFAULT_MIN_TC, false));
    assert!(!tc_passes(b"-", 0, false));
}

#[test]
fn default_floor_removes_bullet_keeps_blitz() {
    assert_eq!(DEFAULT_MIN_TC, 180);
    assert!(!tc_passes(b"60+0", DEFAULT_MIN_TC, true));
    assert!(!tc_passes(b"120+1", DEFAULT_MIN_TC, true));
    assert!(tc_passes(b"180+0", DEFAULT_MIN_TC, true));
    assert!(tc_passes(b"120+2", DEFAULT_MIN_TC, true));
    assert!(!tc_passes(b"300+0", 480, true));
    assert!(tc_passes(b"600+0", 480, true));
}

#[test]
fn zero_floor_keeps_every_clock() {
    for tc in [&b"0+0"[..], b"15+0", b"60+0", b"-", b"junk"].iter() {
        assert!(tc_passes(tc, 0, true));
    }
}

#[test]
fn unparseable_time_controls_pass() {
    assert!(tc_passes(b"?", 100000, false));
    assert!(tc_passes(b"", 100000, false));
}

#[test]
fn lowering_the_floor_keeps_what_passed() {
    let samples = [&b"180+0"[..], b"60+1", b"600+5", b"-", b"x"];
    for tc in samples.iter() {
        for high in [0u32, 100, 180, 480, 10000].iter() {
            if tc_passes(tc, *high, false) {
                for low in 0..=*high / 20 {
                    assert!(tc_passes(tc, low * 20, false));
                }
            }
        }
    }
}
