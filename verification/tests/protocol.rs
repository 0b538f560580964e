//! Versions, envelopes and frames.

use serde_json::Value;
use zcode::protocol::envelope::{Envelope, IdGen};
use zcode::protocol::error::{ErrorCode, ProtocolError};
use zcode::protocol::frame::{
    encode, FrameDecoder, FrameError, SHRINK_CAPACITY_THRESHOLD, SHRINK_RETAIN_CAPACITY,
};
use zcode::protocol::version::{protocol_version, Hello, Version, VersionMismatch};

#[derive(Debug, Clone, PartialEq, Eq)]
struct Msg {
    text: String,
}

fn msg(text: &str) -> Msg {
    Msg { text: text.to_owned() }
}

fn ping() -> Msg {
    msg("hi")
}

/// A message as JSON.
fn line(m: &Msg) -> Vec<u8> {
    let mut object = serde_json::Map::new();
    object.insert("text".to_owned(), Value::String(m.text.clone()));
    serde_json::to_vec(&Value::Object(object)).expect("JSON")
}

/// Why there is no message.
#[derive(Debug)]
enum Refused {
    TooLarge { len: usize, limit: usize },
    Json,
}

fn decode(decoder: &mut FrameDecoder) -> Result<Option<Msg>, Refused> {
    match decoder.decode() {
        Err(FrameError::TooLarge { len, limit }) => Err(Refused::TooLarge { len, limit }),
        Ok(None) => Ok(None),
        Ok(Some(bytes)) => match serde_json::from_slice::<Value>(&bytes) {
            Ok(Value::Object(object)) => match object.get("text") {
                Some(Value::String(text)) => Ok(Some(msg(text))),
                _ => Err(Refused::Json),
            },
            _ => Err(Refused::Json),
        },
    }
}

fn v(major: u16, minor: u16) -> Version {
    Version { major, minor }
}

#[test]
fn same_major_negotiates_to_lower_minor() {
    assert_eq!(v(1, 7).negotiate(v(1, 3)), Ok(v(1, 3)));
    assert_eq!(v(1, 3).negotiate(v(1, 7)), Ok(v(1, 3)));
    assert_eq!(v(2, 0).negotiate(v(2, 0)), Ok(v(2, 0)));
}

#[test]
fn different_major_is_rejected() {
    let err = v(1, 9).negotiate(v(2, 0)).expect_err("主版本不同必须拒绝");
    assert_eq!(err.local, v(1, 9));
    assert_eq!(err.remote, v(2, 0));
}

#[test]
fn negotiation_is_symmetric() {
    for (a, b) in [
        (v(1, 0), v(1, 5)),
        (v(1, 5), v(1, 0)),
        (v(1, 2), v(2, 2)),
        (v(3, 0), v(1, 0)),
    ] {
        assert_eq!(
            a.negotiate(b).map_err(|e| (e.remote, e.local)),
            b.negotiate(a).map_err(|e| (e.local, e.remote)),
            "协商结果必须与谁先发起无关"
        );
    }
}

#[test]
fn version_renders_as_major_dot_minor() {
    assert_eq!(protocol_version().to_string(), "1.0");
    assert_eq!(v(12, 345).to_string(), "12.345");
}


#[test]
fn map_preserves_envelope_fields() {
    let mapped = Envelope::reply_to(2, 1, ping()).map(|p| p.text.len());
    assert_eq!(mapped.id, 2);
    assert_eq!(mapped.reply_to, Some(1));
    assert_eq!(mapped.payload, 2);
}

#[test]
fn ids_start_at_one_and_increase() {
    let mut ids = IdGen::default();
    assert_eq!(ids.next_id(), 1);
    assert_eq!(ids.next_id(), 2);
    assert_eq!(ids.next_id(), 3);
}

#[test]
fn version_mismatch_converts_to_error_frame() {
    let mismatch = VersionMismatch {
        local: protocol_version(),
        remote: Version { major: 9, minor: 1 },
    };
    let err = ProtocolError::from(mismatch);
    assert_eq!(err.code, ErrorCode::VersionMismatch);
    assert!(err.message.contains("9.1"), "说明里要带上对端版本便于定位");
}

#[test]
fn unsupported_request_names_the_request() {
    let err = ProtocolError::unsupported_request("session.fork");
    assert_eq!(err.code, ErrorCode::UnsupportedRequest);
    assert!(err.message.contains("session.fork"));
}

#[test]
fn encode_decode_round_trip() -> Result<(), Refused> {
    let mut wire = Vec::new();
    encode(&line(&msg("one")), &mut wire);
    encode(&line(&msg("two")), &mut wire);

    let mut decoder = FrameDecoder::new();
    decoder.push(&wire);
    assert_eq!(decode(&mut decoder)?, Some(msg("one")));
    assert_eq!(decode(&mut decoder)?, Some(msg("two")));
    assert_eq!(decode(&mut decoder)?, None);
    Ok(())
}

#[test]
fn frame_split_across_chunks_is_reassembled() -> Result<(), Refused> {
    let mut wire = Vec::new();
    encode(&line(&msg("split me")), &mut wire);

    let mut decoder = FrameDecoder::new();
    for byte in &wire {
        assert_eq!(
            decode(&mut decoder)?,
            None,
            "帧未完整时不得产出，缓冲区必须跨调用存活"
        );
        decoder.push(std::slice::from_ref(byte));
    }
    assert_eq!(decode(&mut decoder)?, Some(msg("split me")));
    Ok(())
}

#[test]
fn blank_and_whitespace_lines_are_skipped() -> Result<(), Refused> {
    let mut decoder = FrameDecoder::new();
    decoder.push(b"\n   \n\t\n{\"text\":\"after heartbeats\"}\n");
    assert_eq!(decode(&mut decoder)?, Some(msg("after heartbeats")));
    assert_eq!(decode(&mut decoder)?, None);
    Ok(())
}

#[test]
fn malformed_line_skips_only_that_line() {
    let mut decoder = FrameDecoder::new();
    decoder.push(b"{not json}\n{\"text\":\"survivor\"}\n");

    let err = decode(&mut decoder)
        .expect_err("坏行必须报错，不能被静默吞掉");
    assert!(matches!(err, Refused::Json));
    assert_eq!(
        decode(&mut decoder).expect("坏行不得毒化后续帧"),
        Some(msg("survivor"))
    );
}

#[test]
fn wrong_shape_is_a_json_error_not_a_hang() {
    let mut decoder = FrameDecoder::new();
    decoder.push(b"{\"unexpected\":1}\n{\"text\":\"ok\"}\n");
    assert!(matches!(decode(&mut decoder), Err(Refused::Json)));
    assert_eq!(
        decode(&mut decoder).expect("结构不符也只跳这一行"),
        Some(msg("ok"))
    );
}

#[test]
fn oversized_frame_is_rejected() {
    let mut decoder = FrameDecoder::with_max_frame(16);
    decoder.push(b"{\"text\":\"far too long to fit in sixteen bytes\"}");
    let err = decode(&mut decoder).expect_err("超限必须报错");
    match err {
        Refused::TooLarge { len, limit } => {
            assert_eq!(limit, 16);
            assert!(len > 16);
        }
        Refused::Json => panic!("应报 TooLarge，实得 JSON 错误"),
    }
}

#[test]
fn limit_counts_accumulated_bytes_not_single_chunk() {
    let mut decoder = FrameDecoder::with_max_frame(8);
    decoder.push(b"1234");
    assert!(decode(&mut decoder).is_ok(), "还没超限，不该报错");
    decoder.push(b"56789");
    assert!(
        matches!(decode(&mut decoder), Err(Refused::TooLarge { .. })),
        "上限针对累积字节，不是单次 chunk"
    );
}

#[test]
fn oversized_frame_arriving_complete_is_still_rejected() {
    let mut decoder = FrameDecoder::with_max_frame(8);
    decoder.push(b"123456789\n");
    match decode(&mut decoder).expect_err("完整的超长帧必须报错") {
        Refused::TooLarge { len, limit } => {
            assert_eq!((len, limit), (9, 8));
        }
        Refused::Json => panic!("应报 TooLarge，实得 JSON 错误"),
    }
}

#[test]
fn frame_exactly_at_the_limit_is_accepted() -> Result<(), Refused> {
    let payload = br#"{"text":"ok"}"#;
    let mut decoder = FrameDecoder::with_max_frame(payload.len());
    decoder.push(payload);
    decoder.push(b"\n");
    assert_eq!(decode(&mut decoder)?, Some(msg("ok")));
    Ok(())
}

#[test]
fn large_frame_does_not_pin_capacity_for_the_connection() -> Result<(), Refused> {
    let big = msg(&"x".repeat(SHRINK_CAPACITY_THRESHOLD * 2));
    let mut wire = Vec::new();
    encode(&line(&big), &mut wire);
    encode(&line(&msg("small")), &mut wire);

    let mut decoder = FrameDecoder::new();
    decoder.push(&wire);
    assert_eq!(decode(&mut decoder)?, Some(big));
    assert_eq!(decode(&mut decoder)?, Some(msg("small")));

    assert!(
        decoder.capacity() <= SHRINK_RETAIN_CAPACITY,
        "大帧过后容量必须回缩，实测 {}",
        decoder.capacity()
    );
    Ok(())
}

#[test]
fn buffered_reports_pending_bytes() {
    let mut decoder = FrameDecoder::new();
    assert_eq!(decoder.buffered(), 0);
    decoder.push(b"{\"text\":\"partial\"}");
    assert_eq!(decoder.buffered(), 18);
    decoder.push(b"\n");
    assert_eq!(
        decode(&mut decoder).expect("完整帧应可解"),
        Some(msg("partial"))
    );
    assert_eq!(decoder.buffered(), 0, "成帧后缓冲区必须清空");
}

#[test]
fn code_round_trips_as_snake_case() {
    assert_eq!(ErrorCode::UnsupportedRequest.wire_name(), "unsupported_request");
    assert_eq!(ErrorCode::from_wire("frame_too_large"), ErrorCode::FrameTooLarge);
}

#[test]
fn unknown_code_from_newer_peer_is_absorbed() {
    let err = ProtocolError::new(ErrorCode::from_wire("quota_exhausted"), "nope".to_owned());
    assert_eq!(err.code, ErrorCode::Unknown);
    assert_eq!(err.message, "nope");
}

#[test]
fn a_push_answers_nothing_and_a_reply_answers_a_request() {
    let push = Envelope::new(7, ping());
    assert_eq!((push.v, push.id, push.reply_to), (1, 7, None));
    let reply = Envelope::reply_to(8, 7, ping());
    assert_eq!((reply.v, reply.id, reply.reply_to), (1, 8, Some(7)));
}

#[test]
fn hello_tells_the_own_version() {
    let hello = Hello::local("zcode-tui");
    assert_eq!(hello.version, protocol_version());
    assert_eq!(hello.agent, "zcode-tui");
}

#[test]
fn protocol_errors_are_told_in_words() {
    let err = ProtocolError::new(ErrorCode::MalformedFrame, "bad".to_owned());
    assert_eq!(err.to_string(), "MalformedFrame: bad");
    let large = FrameError::TooLarge { len: 9, limit: 8 };
    assert!(large.to_string().contains('9') && large.to_string().contains('8'));
}

#[test]
fn pieces_of_a_connection_do_not_matter() {
    let wire = b"\n{\"text\":\"a\"}\n  \n{\"text\":\"b\"}\n{\"text\"";
    for cut in 0..wire.len() {
        let mut decoder = FrameDecoder::new();
        let mut found = Vec::new();
        for piece in [&wire[..cut], &wire[cut..]] {
            decoder.push(piece);
            while let Some(m) = decode(&mut decoder).expect("frames") {
                found.push(m);
            }
        }
        assert_eq!(found, vec![msg("a"), msg("b")]);
        assert_eq!(decoder.buffered(), 7);
    }
}

#[test]
fn many_frames_come_out_of_any_pieces() {
    let frames: [&[u8]; 3] = [b"{\"a\":1}", b"2", b"[true,null]"];
    let mut wire = Vec::new();
    for frame in frames {
        encode(frame, &mut wire);
    }
    for size in 1..=wire.len() {
        let mut decoder = FrameDecoder::with_max_frame(11);
        let mut got: Vec<Vec<u8>> = Vec::new();
        let mut pushed = 0;
        for piece in wire.chunks(size) {
            decoder.push(piece);
            pushed += piece.len();
            while let Some(line) = decoder.decode().expect("no frame is too long") {
                got.push(line);
            }
            let breaks = wire[..pushed].iter().filter(|b| **b == b'\n').count();
            assert_eq!(got.len(), breaks);
        }
        assert_eq!(got, frames);
        assert_eq!(decoder.buffered(), 0);
    }
}

#[test]
fn numbers_count_up_from_one() {
    let mut ids = IdGen::default();
    let given: Vec<u64> = (0..5).map(|_| ids.next_id()).collect();
    assert_eq!(given, [1, 2, 3, 4, 5]);
}
