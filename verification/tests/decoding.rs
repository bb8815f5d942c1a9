use read_chars::{
    ByteSource, DecodeResult, ErrorKind, PullEvent, ReadChars, ScriptedSource, SliceSource, Span,
    DEFAULT_CAPACITY,
};

fn dec(ch: char, start: usize, end: usize) -> DecodeResult {
    DecodeResult::Decoded {
        ch,
        span: Span { start, end },
    }
}

fn fail(kind: ErrorKind) -> DecodeResult {
    DecodeResult::Failed { kind }
}

fn decode_all(bytes: Vec<u8>, capacity: usize) -> Vec<DecodeResult> {
    let mut rc = ReadChars::new(SliceSource::new(bytes), capacity);
    let mut out = Vec::new();
    while let Some(item) = rc.next() {
        out.push(item);
    }
    out
}

#[test]
fn empty_input_yields_none() {
    let mut rc = ReadChars::new(SliceSource::new(vec![]), 16);
    assert_eq!(rc.next(), None);
    assert_eq!(rc.next(), None);
}

#[test]
fn ascii_identity_bytes() {
    let out = decode_all(vec![0x48, 0x69, 0x21], 16);
    assert_eq!(out, vec![dec('H', 0, 1), dec('i', 1, 2), dec('!', 2, 3)]);
}

#[test]
fn overlong_nul_rejected() {
    let out = decode_all(vec![0xC0, 0x80], 16);
    assert_eq!(out, vec![fail(ErrorKind::InvalidEncoding)]);
    assert!(!matches!(out[0], DecodeResult::Decoded { ch: '\0', .. }));
}

#[test]
fn truncated_sequence_ends_stream() {
    let mut rc = ReadChars::new(SliceSource::new(vec![0xE2, 0x9C]), 16);
    assert_eq!(rc.next(), Some(fail(ErrorKind::UnexpectedEndOfInput)));
    assert_eq!(rc.next(), None);
    assert_eq!(rc.next(), None);
}

#[test]
fn spans_of_mixed_input() {
    let out = decode_all(vec![0x48, 0x69, 0xE2, 0x9C, 0x93], 16);
    assert_eq!(out, vec![dec('H', 0, 1), dec('i', 1, 2), dec('\u{2713}', 2, 5)]);
}

#[test]
fn error_recovery_after_invalid_lead() {
    let out = decode_all(vec![0x48, 0x69, 0xFF, 0x21], 16);
    assert_eq!(
        out,
        vec![
            dec('H', 0, 1),
            dec('i', 1, 2),
            fail(ErrorKind::InvalidLeadByte),
            dec('!', 3, 4),
        ]
    );
}

#[test]
fn invalid_continuation_retries_the_byte() {
    let out = decode_all(vec![0xE2, 0x41, 0x42], 16);
    assert_eq!(
        out,
        vec![
            fail(ErrorKind::InvalidContinuationByte),
            dec('A', 1, 2),
            dec('B', 2, 3),
        ]
    );
}

#[test]
fn retried_byte_can_lead_a_new_sequence() {
    let out = decode_all(vec![0xC3, 0xE2, 0x82, 0xAC], 16);
    assert_eq!(
        out,
        vec![fail(ErrorKind::InvalidContinuationByte), dec('\u{20AC}', 1, 4)]
    );
}

#[test]
fn io_error_reported_without_consuming_a_byte() {
    let script = vec![
        PullEvent::Byte(0x48),
        PullEvent::IoError,
        PullEvent::Byte(0x21),
        PullEvent::End,
    ];
    let mut rc = ReadChars::new(ScriptedSource::new(script), 16);
    assert_eq!(rc.next(), Some(dec('H', 0, 1)));
    assert_eq!(rc.next(), Some(fail(ErrorKind::UnderlyingIOError)));
    assert_eq!(rc.next(), Some(dec('!', 1, 2)));
    assert_eq!(rc.next(), None);
}

#[test]
fn io_error_mid_sequence_consumes_started_bytes() {
    let script = vec![
        PullEvent::Byte(0xE2),
        PullEvent::IoError,
        PullEvent::Byte(0x41),
        PullEvent::End,
    ];
    let mut rc = ReadChars::new(ScriptedSource::new(script), 16);
    assert_eq!(rc.next(), Some(fail(ErrorKind::UnderlyingIOError)));
    assert_eq!(rc.next(), Some(dec('A', 1, 2)));
    assert_eq!(rc.next(), None);
}

#[test]
fn capacity_one_holds_back_retried_byte() {
    let out = decode_all(vec![0xE2, 0x41], 1);
    assert_eq!(
        out,
        vec![fail(ErrorKind::InvalidContinuationByte), dec('A', 1, 2)]
    );
}

#[test]
fn two_byte_scalar() {
    let out = decode_all(vec![0xC3, 0xA9], 16);
    assert_eq!(out, vec![dec('\u{E9}', 0, 2)]);
}

#[test]
fn four_byte_scalar() {
    let out = decode_all(vec![0xF0, 0x9F, 0x98, 0x80], 16);
    assert_eq!(out, vec![dec('\u{1F600}', 0, 4)]);
}

#[test]
fn surrogate_rejected() {
    let out = decode_all(vec![0xED, 0xA0, 0x80], 16);
    assert_eq!(out, vec![fail(ErrorKind::InvalidEncoding)]);
}

#[test]
fn out_of_range_scalar_rejected() {
    let out = decode_all(vec![0xF4, 0x90, 0x80, 0x80], 16);
    assert_eq!(out, vec![fail(ErrorKind::InvalidEncoding)]);
}

#[test]
fn largest_scalar_accepted() {
    let out = decode_all(vec![0xF4, 0x8F, 0xBF, 0xBF], 16);
    assert_eq!(out, vec![dec('\u{10FFFF}', 0, 4)]);
}

#[test]
fn overlong_three_byte_rejected() {
    let out = decode_all(vec![0xE0, 0x80, 0xAF], 16);
    assert_eq!(out, vec![fail(ErrorKind::InvalidEncoding)]);
}

#[test]
fn stray_continuation_byte_is_invalid_lead() {
    let out = decode_all(vec![0x80], 16);
    assert_eq!(out, vec![fail(ErrorKind::InvalidLeadByte)]);
}

#[test]
fn round_trip_reproduces_bytes() {
    let text = "h\u{E9}llo \u{2713} \u{1F600}";
    let bytes: Vec<u8> = text.bytes().collect();
    let out = decode_all(bytes.clone(), 16);
    let mut reencoded: Vec<u8> = Vec::new();
    let mut spans_end = 0;
    for item in &out {
        match item {
            DecodeResult::Decoded { ch, span } => {
                assert_eq!(span.start, spans_end);
                spans_end = span.end;
                let mut buf = [0u8; 4];
                reencoded.extend_from_slice(ch.encode_utf8(&mut buf).as_bytes());
            }
            DecodeResult::Failed { .. } => panic!("valid input must decode cleanly"),
        }
    }
    assert_eq!(reencoded, bytes);
    assert_eq!(spans_end, bytes.len());
}

#[test]
fn default_capacity_is_sixteen() {
    assert_eq!(DEFAULT_CAPACITY, 16);
}

#[test]
fn scripted_source_reports_end_after_script() {
    let mut src = ScriptedSource::new(vec![PullEvent::Byte(0x41)]);
    assert_eq!(src.pull(), PullEvent::Byte(0x41));
    assert_eq!(src.pull(), PullEvent::End);
    assert_eq!(src.pull(), PullEvent::End);
}
