use ffsubsync_wasm::srt::{parse_srt, rewrite_srt, SrtError};

const ONE: u32 = 1_000_000;

#[test]
fn empty_text_has_no_subtitles() {
    let e = parse_srt("").unwrap_err();
    assert!(matches!(e, SrtError::NoSubtitles));
    assert_eq!(e.message(), "no subtitles parsed");
    assert!(matches!(parse_srt("\n\n  \n").unwrap_err(), SrtError::NoSubtitles));
}

#[test]
fn single_cue_shifted_by_half_a_second() {
    let subs = parse_srt("1\n00:00:01,000 --> 00:00:02,000\nHello\n").unwrap();
    let out = rewrite_srt(&subs, 500, ONE);
    assert_eq!(out, "1\n00:00:01,500 --> 00:00:02,500\nHello");
}

#[test]
fn round_trip_keeps_timecodes() {
    let text = "3\n00:00:01,250 --> 00:00:03,000\nFirst line\nsecond line\n\n7\n01:02:03,004 --> 01:02:05,999\n  Two  \n";
    let subs = parse_srt(text).unwrap();
    assert_eq!(subs.len(), 2);
    assert_eq!(subs[0].start_ms, 1250);
    assert_eq!(subs[0].end_ms, 3000);
    assert_eq!(subs[1].start_ms, 3723004);
    assert_eq!(subs[1].end_ms, 3725999);
    let out = rewrite_srt(&subs, 0, ONE);
    assert_eq!(
        out,
        "1\n00:00:01,250 --> 00:00:03,000\nFirst line\nsecond line\n\n2\n01:02:03,004 --> 01:02:05,999\nTwo"
    );
}

#[test]
fn multi_line_text_is_kept() {
    let subs = parse_srt("1\r\n00:00:00,000 --> 00:00:01,000\r\na\r\nb\r\n\r\n").unwrap();
    assert_eq!(subs[0].text.iter().collect::<String>(), "a\nb");
}

#[test]
fn malformed_time_line_is_named() {
    let e = parse_srt("1\n  00:00:01,000 => 00:00:02,000 \nx\n").unwrap_err();
    match e {
        SrtError::InvalidTimeLine(l) => assert_eq!(l.iter().collect::<String>(), "00:00:01,000 => 00:00:02,000"),
        other => panic!("unexpected {:?}", other),
    }
    let e = parse_srt("1\n00:00:01,000 --> 00:00:02,000 --> 00:00:03,000\nx\n").unwrap_err();
    assert_eq!(e.message(), "invalid time line: 00:00:01,000 --> 00:00:02,000 --> 00:00:03,000");
}

#[test]
fn bad_start_and_end_times() {
    let e = parse_srt("1\n00:00:0x,000 --> 00:00:02,000\nHi").unwrap_err();
    assert!(matches!(e, SrtError::BadStart(_)));
    assert_eq!(e.message(), "bad start time in line: 00:00:0x,000 --> 00:00:02,000");
    let e = parse_srt("1\n 00:00:01,000 --> 00:00,02,000,1 \nx\n").unwrap_err();
    assert!(matches!(e, SrtError::BadEnd(_)));
    assert_eq!(e.message(), "bad end time in line: 00:00:01,000 --> 00:00,02,000,1");
    assert!(matches!(parse_srt("1\n00:00:01 --> 00:00:02,000\nx\n").unwrap_err(), SrtError::BadStart(_)));
}

#[test]
fn signed_fields_read_as_integers() {
    let subs = parse_srt("1\n+0:0:1,-5 --> 0:0:2,+7\nx\n").unwrap();
    assert_eq!(subs[0].start_ms, 995);
    assert_eq!(subs[0].end_ms, 2007);
}

#[test]
fn index_line_without_time_line_ends_parsing() {
    let subs = parse_srt("1\n00:00:01,000 --> 00:00:02,000\nx\n\n2\n").unwrap();
    assert_eq!(subs.len(), 1);
}

#[test]
fn negative_offset_clamps_at_zero() {
    let subs = parse_srt("1\n00:00:01,000 --> 00:00:02,000\nx\n").unwrap();
    assert_eq!(rewrite_srt(&subs, -1500, ONE), "1\n00:00:00,000 --> 00:00:00,500\nx");
    assert_eq!(rewrite_srt(&subs, -5000, ONE), "1\n00:00:00,000 --> 00:00:00,000\nx");
}

#[test]
fn end_before_start_is_clamped() {
    let subs = parse_srt("1\n00:00:05,000 --> 00:00:02,000\nx\n").unwrap();
    assert_eq!(rewrite_srt(&subs, 0, ONE), "1\n00:00:05,000 --> 00:00:05,000\nx");
}

#[test]
fn drift_scales_times_and_truncates() {
    let subs = parse_srt("1\n00:00:10,001 --> 00:01:40,000\nx\n").unwrap();
    // 10001 * 1.03 = 10301.03 and 100000 * 1.03 = 103000.
    assert_eq!(rewrite_srt(&subs, 0, 1_030_000), "1\n00:00:10,301 --> 00:01:43,000\nx");
    // 10001 * 0.97 = 9700.97, truncated.
    assert_eq!(rewrite_srt(&subs, 0, 970_000), "1\n00:00:09,700 --> 00:01:37,000\nx");
}

#[test]
fn long_hours_take_more_digits() {
    let subs = parse_srt("1\n123:00:00,000 --> 123:00:00,001\nx\n").unwrap();
    assert_eq!(rewrite_srt(&subs, 0, ONE), "1\n123:00:00,000 --> 123:00:00,001\nx");
}
