//! The wire format: frames as bytes, and streams of them.

use dendro::db::{SegmentMeta, WalRow};
use dendro::replicate::wire::{
    decode_payload, encode, encode_frame, magic, write_preamble, FrameReader, LENGTH_PREFIX_BYTES,
};
use dendro::replicate::{Frame, IndexKind, NO_INDEX_STATE};
use dendro::text_map::TextMap;


fn map(pairs: &[(&str, &str)]) -> TextMap {
    let mut m = TextMap::new();
    for (k, v) in pairs {
        m.insert(k.to_string(), v.to_string());
    }
    m
}

/// Every variant, through bytes and back. The one test that has to pass
/// before anything else here means anything.
#[test]
fn every_frame_round_trips() {
    let frames = vec![
        Frame::Handshake {
            source: 0,
            uuid: Some("3f2b1c4d-0000-4000-8000-000000000001".to_string()),
            labels: map(&[("host", "web-01"), ("arm", "a")]),
            metadata: map(&[("encoder", "v3")]),
            clock_anchor_wall_ns: -1_000,
            complete: true,
        },
        Frame::Index {
            source: 1,
            stream: "cpu".to_string(),
            ts: 42,
            kind: IndexKind::Full,
            state: (7, 9),
            blob: vec![1, 2, 3, 4],
        },
        Frame::Index {
            source: 1,
            stream: "cpu".to_string(),
            ts: 43,
            kind: IndexKind::Delta,
            state: (11, 13),
            blob: Vec::new(),
        },
        Frame::Rows {
            source: 2,
            seq: 99,
            index_state: (7, 9),
            rows: vec![
                WalRow {
                    stream: "cpu".to_string(),
                    ts: 1,
                    wall_offset: -5,
                    row: vec![0xde, 0xad],
                },
                WalRow {
                    stream: "mem".to_string(),
                    ts: 2,
                    wall_offset: 5,
                    row: Vec::new(),
                },
            ],
        },
        Frame::Segment {
            source: 3,
            stream: "cpu".to_string(),
            meta: SegmentMeta {
                rows: 10,
                first_ts: -9,
                last_ts: 9,
            },
            bytes: b"PAR1payloadPAR1".to_vec(),
            caller_index: Some(vec![9, 9]),
        },
        Frame::ClockOffset {
            source: 4,
            ts: i64::MIN,
            offset_ns: i64::MAX,
        },
        Frame::StreamSummary {
            source: 5,
            stream: "cpu_usage/task".to_string(),
            as_of_ts: 1_700_000_000_000_000_000,
            blob: b"columns".to_vec(),
        },
        Frame::StreamSummary {
            source: 5,
            stream: String::new(),
            as_of_ts: -1,
            blob: Vec::new(),
        },
    ];

    for frame in &frames {
        let bytes = encode(frame).unwrap();
        let len = u32::from_le_bytes(bytes[..LENGTH_PREFIX_BYTES].try_into().unwrap()) as usize;
        assert_eq!(
            len,
            bytes.len() - LENGTH_PREFIX_BYTES,
            "the length prefix covers the payload"
        );
        let back = decode_payload(&bytes[LENGTH_PREFIX_BYTES..]).unwrap();
        assert_eq!(&back, frame);
    }
}

/// Absent and empty are different, on both fields that carry an option.
#[test]
fn absent_is_not_empty() {
    for (absent, empty) in [
        (
            Frame::Segment {
                source: 0,
                stream: "s".to_string(),
                meta: SegmentMeta {
                    rows: 1,
                    first_ts: 0,
                    last_ts: 0,
                },
                bytes: vec![1],
                caller_index: None,
            },
            Frame::Segment {
                source: 0,
                stream: "s".to_string(),
                meta: SegmentMeta {
                    rows: 1,
                    first_ts: 0,
                    last_ts: 0,
                },
                bytes: vec![1],
                caller_index: Some(Vec::new()),
            },
        ),
        (
            Frame::Handshake {
                source: 0,
                uuid: None,
                labels: TextMap::new(),
                metadata: TextMap::new(),
                clock_anchor_wall_ns: 0,
                complete: false,
            },
            Frame::Handshake {
                source: 0,
                uuid: Some(String::new()),
                labels: TextMap::new(),
                metadata: TextMap::new(),
                clock_anchor_wall_ns: 0,
                complete: false,
            },
        ),
    ] {
        let a = encode(&absent).unwrap();
        let b = encode(&empty).unwrap();
        assert_ne!(a, b, "absent and empty must not encode alike");
        assert_eq!(decode_payload(&a[LENGTH_PREFIX_BYTES..]).unwrap(), absent);
        assert_eq!(decode_payload(&b[LENGTH_PREFIX_BYTES..]).unwrap(), empty);
    }
}

/// An empty `Rows` frame is the keepalive, so it has to survive the codec.
#[test]
fn the_keepalive_round_trips() {
    let frame = Frame::Rows {
        source: 0,
        seq: 0,
        index_state: NO_INDEX_STATE,
        rows: Vec::new(),
    };
    let bytes = encode(&frame).unwrap();
    assert_eq!(
        decode_payload(&bytes[LENGTH_PREFIX_BYTES..]).unwrap(),
        frame
    );
}

/// Bytes off a wire are not to be trusted: every truncation of every frame
/// is an error, and none of them panics.
#[test]
fn a_truncated_frame_is_an_error_not_a_panic() {
    let frame = Frame::Rows {
        source: 1,
        seq: 2,
        index_state: (3, 4),
        rows: vec![WalRow {
            stream: "cpu".to_string(),
            ts: 5,
            wall_offset: 6,
            row: vec![7, 8, 9],
        }],
    };
    let bytes = encode(&frame).unwrap();
    let payload = &bytes[LENGTH_PREFIX_BYTES..];
    for cut in 0..payload.len() {
        assert!(
            decode_payload(&payload[..cut]).is_err(),
            "a payload cut to {cut} byte(s) decoded as a frame"
        );
    }
}

/// Trailing bytes mean the sender put something there this build does not
/// read. Applying the fields it did understand would be acting on a frame
/// it has guessed the meaning of.
#[test]
fn trailing_bytes_are_refused() {
    let frame = Frame::ClockOffset {
        source: 0,
        ts: 1,
        offset_ns: 2,
    };
    let bytes = encode(&frame).unwrap();
    let mut payload = bytes[LENGTH_PREFIX_BYTES..].to_vec();
    payload.push(0);
    assert!(decode_payload(&payload).is_err());
}

#[test]
fn an_unknown_kind_is_refused() {
    assert!(decode_payload(&[200, 0, 0, 0, 0]).is_err());
}

/// A length above the cap is refused before anything is allocated for it.
#[test]
fn an_oversized_length_is_refused_before_allocating() {
    let mut stream = Vec::new();
    write_preamble(&mut stream).unwrap();
    stream.extend_from_slice(&u32::MAX.to_le_bytes());
    let mut reader = FrameReader::new(stream).unwrap();
    let err = reader.next_frame().unwrap_err().to_string();
    assert!(err.contains("limit"), "{err}");
}

/// Several frames through a reader, and a clean end.
#[test]
fn a_stream_reads_back_in_order() {
    let frames = vec![
        Frame::Handshake {
            source: 0,
            uuid: None,
            labels: map(&[("host", "a")]),
            metadata: TextMap::new(),
            clock_anchor_wall_ns: 1,
            complete: false,
        },
        Frame::Rows {
            source: 0,
            seq: 0,
            index_state: NO_INDEX_STATE,
            rows: Vec::new(),
        },
        Frame::ClockOffset {
            source: 0,
            ts: 2,
            offset_ns: 3,
        },
    ];
    let mut bytes = Vec::new();
    write_preamble(&mut bytes).unwrap();
    for f in &frames {
        encode_frame(f, &mut bytes).unwrap();
    }

    let mut reader = FrameReader::new(bytes).unwrap();
    for want in &frames {
        assert_eq!(reader.next_frame().unwrap().as_ref(), Some(want));
    }
    assert_eq!(reader.next_frame().unwrap(), None, "a clean end of stream");
}

/// A stream that stops inside a frame lost that frame. Reporting it as the
/// end of the stream would silently shorten the recording.
#[test]
fn a_stream_cut_mid_frame_is_an_error() {
    let mut bytes = Vec::new();
    write_preamble(&mut bytes).unwrap();
    encode_frame(
        &Frame::ClockOffset {
            source: 0,
            ts: 1,
            offset_ns: 2,
        },
        &mut bytes,
    )
    .unwrap();
    bytes.truncate(bytes.len() - 3);
    let mut reader = FrameReader::new(bytes).unwrap();
    assert!(reader.next_frame().is_err());
}

#[test]
fn a_wrong_preamble_says_so() {
    let err = FrameReader::new(b"not a stream".to_vec())
        .unwrap_err()
        .to_string();
    assert!(err.contains("not a dendro replication stream"), "{err}");

    let mut wrong_version = magic();
    wrong_version.extend_from_slice(&99u16.to_le_bytes());
    let err = FrameReader::new(wrong_version)
        .unwrap_err()
        .to_string();
    assert!(err.contains("protocol version 99"), "{err}");
}

/// The bytes of one frame, exactly: a length, a kind, and fixed-width fields.
#[test]
fn a_frame_is_these_bytes() {
    let frame = Frame::ClockOffset {
        source: 1,
        ts: -2,
        offset_ns: 3,
    };
    let mut want = vec![21, 0, 0, 0, 5, 1, 0, 0, 0];
    want.extend_from_slice(&(-2i64).to_le_bytes());
    want.extend_from_slice(&3i64.to_le_bytes());
    assert_eq!(encode(&frame).unwrap(), want);
}

#[test]
fn a_text_that_is_not_utf8_is_refused() {
    let frame = Frame::StreamSummary {
        source: 0,
        stream: "é".to_string(),
        as_of_ts: 0,
        blob: Vec::new(),
    };
    let bytes = encode(&frame).unwrap();
    let mut payload = bytes[LENGTH_PREFIX_BYTES..].to_vec();
    assert_eq!(decode_payload(&payload).unwrap(), frame);
    let at = payload.windows(2).position(|w| w == "é".as_bytes()).unwrap();
    payload[at + 1] = b'x';
    let err = decode_payload(&payload).unwrap_err().to_string();
    assert!(err.contains("UTF-8"), "{err}");
}

/// A frame of a kind this build does not know is passed over and counted.
#[test]
fn unknown_kinds_are_passed_over() {
    let frame = Frame::ClockOffset {
        source: 0,
        ts: 1,
        offset_ns: 2,
    };
    let mut bytes = Vec::new();
    write_preamble(&mut bytes).unwrap();
    bytes.extend_from_slice(&[3, 0, 0, 0, 200, 1, 2]);
    encode_frame(&frame, &mut bytes).unwrap();
    bytes.extend_from_slice(&[1, 0, 0, 0, 99]);
    let mut reader = FrameReader::new(bytes).unwrap();
    assert_eq!(reader.next_frame().unwrap(), Some(frame));
    assert_eq!(reader.next_frame().unwrap(), None);
    assert_eq!(reader.skipped(), 2);
}

#[test]
fn a_frame_over_the_limit_is_not_written() {
    let frame = Frame::StreamSummary {
        source: 0,
        stream: "s".to_string(),
        as_of_ts: 0,
        blob: vec![0; 64 << 20],
    };
    let mut out = vec![7];
    let err = encode_frame(&frame, &mut out).unwrap_err().to_string();
    assert!(err.contains("limit"), "{err}");
}
