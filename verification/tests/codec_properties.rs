use bytes::BytesMut;
use resp_codec::decode::decode;
use resp_codec::encode::{encode, write_frame};
use resp_codec::types::{Error, Frame};
use resp_codec::utils::{digits_in_number, redirection_to_frame, string_to_redirection};
use resp_codec::Redirection;

fn encode_to_vec(f: &Frame) -> Vec<u8> {
    let mut buf = BytesMut::new();
    encode(&mut buf, f).unwrap();
    buf.to_vec()
}

fn sample_frames() -> Vec<Frame> {
    vec![
        Frame::SimpleString("OK".into()),
        Frame::SimpleString(String::new()),
        Frame::SimpleString("héllo wörld".into()),
        Frame::Error("ERR unknown command".into()),
        Frame::Integer(0),
        Frame::Integer(-1),
        Frame::Integer(i64::MAX),
        Frame::Integer(i64::MIN),
        Frame::BulkString(vec![]),
        Frame::BulkString(vec![0, 13, 10, 255]),
        Frame::Null,
        Frame::Moved {
            slot: 16383,
            host: "example.test".into(),
            port: 65535,
        },
        Frame::Ask {
            slot: 0,
            host: String::new(),
            port: 1,
        },
    ]
}

#[test]
fn round_trip_every_variant() {
    let mut frames = sample_frames();
    frames.push(Frame::Array(sample_frames()));
    frames.push(Frame::Array(vec![]));
    frames.push(Frame::Array(vec![Frame::Array(vec![Frame::Integer(7)])]));
    for f in frames {
        let wire = encode_to_vec(&f);
        let (decoded, consumed) = decode(&wire).unwrap();
        assert_eq!(decoded, Some(f.clone()));
        assert_eq!(consumed, wire.len());
    }
}

#[test]
fn round_trip_ignores_trailing_padding() {
    let f = Frame::Array(vec![
        Frame::BulkString(b"GET".to_vec()),
        Frame::BulkString(b"key".to_vec()),
    ]);
    let mut wire = encode_to_vec(&f);
    let clean_len = wire.len();
    wire.extend_from_slice(b"\x00garbage\r\n$9\r\n");
    let (decoded, consumed) = decode(&wire).unwrap();
    assert_eq!(decoded, Some(f));
    assert_eq!(consumed, clean_len);
}

#[test]
fn every_truncation_is_incomplete() {
    let mut frames = sample_frames();
    frames.push(Frame::Array(sample_frames()));
    for f in frames {
        let wire = encode_to_vec(&f);
        for k in 0..wire.len() {
            let (decoded, consumed) = decode(&wire[..k]).unwrap();
            assert!(decoded.is_none(), "truncated at {k}: no frame");
            assert_eq!(consumed, 0);
        }
    }
}

#[test]
fn integer_example_decodes_exactly() {
    let (frame, consumed) = decode(b":48293\r\n").unwrap();
    assert_eq!(frame, Some(Frame::Integer(48293)));
    assert_eq!(consumed, 8);
}

#[test]
fn array_with_null_example_decodes_fully() {
    let wire = b"*3\r\n$3\r\nFoo\r\n$-1\r\n$3\r\nBar\r\n";
    let (frame, consumed) = decode(wire).unwrap();
    assert_eq!(
        frame,
        Some(Frame::Array(vec![
            Frame::BulkString(b"Foo".to_vec()),
            Frame::Null,
            Frame::BulkString(b"Bar".to_vec()),
        ]))
    );
    assert_eq!(consumed, wire.len());
}

#[test]
fn llen_example_encodes_exactly() {
    let f = Frame::Array(vec![
        Frame::BulkString(b"LLEN".to_vec()),
        Frame::BulkString(b"mylist".to_vec()),
    ]);
    assert_eq!(encode_to_vec(&f), b"*2\r\n$4\r\nLLEN\r\n$6\r\nmylist\r\n");
}

#[test]
fn unknown_leading_byte_is_a_hard_error() {
    match decode(b"foobarbazwibblewobble") {
        Err(Error::Other(_)) => {}
        other => panic!("expected a hard error, got {:?}", other),
    }
}

#[test]
fn invalid_utf8_simple_string_is_a_hard_error() {
    match decode(b"+ab\xff\r\n") {
        Err(Error::Other(_)) => {}
        other => panic!("expected a hard error, got {:?}", other),
    }
}

#[test]
fn malformed_integer_is_a_hard_error() {
    assert!(matches!(decode(b":12a\r\n"), Err(Error::Other(_))));
    assert!(matches!(decode(b":\r\n"), Err(Error::Other(_))));
    assert!(matches!(
        decode(b":99999999999999999999999\r\n"),
        Err(Error::Other(_))
    ));
}

#[test]
fn negative_lengths_other_than_null_are_hard_errors() {
    assert!(matches!(decode(b"$-2\r\nxx\r\n"), Err(Error::Other(_))));
    assert!(matches!(decode(b"*-1\r\n"), Err(Error::Other(_))));
}

#[test]
fn bulk_string_missing_terminator_is_a_hard_error() {
    assert!(matches!(decode(b"$3\r\nfooXY"), Err(Error::Other(_))));
}

#[test]
fn incomplete_buffers_consume_nothing() {
    for wire in [
        &b""[..],
        b"+",
        b"+OK\r",
        b":12",
        b"$4\r\nab",
        b"$-1\r",
        b"*1\r\n",
        b"*2\r\n:1\r\n",
    ] {
        let (frame, consumed) = decode(wire).unwrap();
        assert!(frame.is_none());
        assert_eq!(consumed, 0);
    }
}

#[test]
fn check_accepts_complete_frames_and_reports_their_length() {
    let wire = b"*2\r\n$4\r\nLLEN\r\n$6\r\nmylist\r\npadding";
    assert_eq!(Frame::check(wire, 0).unwrap(), 26);
    assert_eq!(Frame::check(b":48293\r\n", 0).unwrap(), 8);
    assert_eq!(Frame::check(b"$-1\r\nrest", 0).unwrap(), 5);
    assert!(matches!(Frame::check(b"*1\r\n:5\r", 0), Err(Error::Incomplete)));
    assert!(matches!(Frame::check(b"wibble", 0), Err(Error::Other(_))));
}

#[test]
fn parse_reads_one_frame_at_an_offset() {
    let wire = b":1\r\n:2\r\n";
    let (f, end) = Frame::parse(wire, 4).unwrap();
    assert_eq!(f, Frame::Integer(2));
    assert_eq!(end, 8);
}

#[test]
fn write_frame_is_purely_additive() {
    let mut buf = BytesMut::from(&b"already-here"[..]);
    write_frame(&mut buf, &Frame::SimpleString("OK".into())).unwrap();
    assert_eq!(&buf[..], b"already-here+OK\r\n");
}

#[test]
fn redirection_parsing_accepts_exactly_the_grammar() {
    match string_to_redirection("MOVED 3999 127.0.0.1:6381") {
        Ok(Redirection::Moved { slot, host, port }) => {
            assert_eq!(slot, 3999);
            assert_eq!(host, "127.0.0.1");
            assert_eq!(port, 6381);
        }
        other => panic!("expected a MOVED redirection, got {:?}", other),
    }
    match string_to_redirection("ASK 42 h:1") {
        Ok(Redirection::Ask { slot, host, port }) => {
            assert_eq!(slot, 42);
            assert_eq!(host, "h");
            assert_eq!(port, 1);
        }
        other => panic!("expected an ASK redirection, got {:?}", other),
    }
    for bad in [
        "moved 1 h:1",
        "MOVED 1 h:1 extra",
        "MOVED h:1",
        "MOVED 65536 h:1",
        "MOVED 1 h",
        "MOVED 1 h:1:2",
        "MOVED 1 h:port",
        "MOVED x h:1",
    ] {
        assert!(string_to_redirection(bad).is_err(), "{bad} must not parse");
    }
}

#[test]
fn redirection_text_reconstructs_verbatim() {
    assert_eq!(
        redirection_to_frame("MOVED", 3999, "127.0.0.1", 6381),
        "MOVED 3999 127.0.0.1:6381"
    );
    assert_eq!(redirection_to_frame("ASK", 0, "", 65535), "ASK 0 :65535");
}

#[test]
fn digit_counts_match_rendering() {
    assert_eq!(digits_in_number(0), 1);
    assert_eq!(digits_in_number(9), 1);
    assert_eq!(digits_in_number(10), 2);
    assert_eq!(digits_in_number(48293), 5);
    assert_eq!(digits_in_number(usize::MAX), usize::MAX.to_string().len());
}

#[test]
fn as_str_reads_only_textual_frames() {
    assert_eq!(Frame::SimpleString("hi".into()).as_str(), Some("hi"));
    assert_eq!(Frame::Error("bad".into()).as_str(), Some("bad"));
    assert_eq!(Frame::BulkString(b"text".to_vec()).as_str(), Some("text"));
    assert_eq!(Frame::BulkString(vec![0xff]).as_str(), None);
    assert_eq!(Frame::Integer(5).as_str(), None);
    assert_eq!(Frame::Null.as_str(), None);
}

#[test]
fn textual_equality_covers_only_string_bearing_variants() {
    assert!(Frame::SimpleString("OK".into()) == "OK");
    assert!(Frame::Error("bad".into()) == "bad");
    assert!(Frame::BulkString(b"foo".to_vec()) == "foo");
    assert!(!(Frame::SimpleString("OK".into()) == "ok"));
    assert!(!(Frame::Integer(1) == "1"));
    assert!(!(Frame::Null == "(nil)"));
}

#[test]
fn codec_errors_describe_themselves() {
    assert_eq!(Error::Incomplete.message(), "stream ended early");
    assert_eq!(Error::from("boom".to_string()).message(), "boom");
}

#[test]
fn display_renders_every_variant() {
    assert_eq!(Frame::SimpleString("OK".into()).display_string(), "OK");
    assert_eq!(Frame::Error("bad thing".into()).display_string(), "error: bad thing");
    assert_eq!(Frame::Integer(-42).display_string(), "-42");
    assert_eq!(Frame::BulkString(b"plain".to_vec()).display_string(), "plain");
    assert_eq!(
        Frame::BulkString(vec![0x41, 0xff, 0x00]).display_string(),
        "A\\xff\\x00"
    );
    assert_eq!(Frame::Null.display_string(), "(nil)");
    assert_eq!(
        Frame::Array(vec![
            Frame::SimpleString("a".into()),
            Frame::Integer(1),
            Frame::Null
        ])
        .display_string(),
        "a 1 (nil)"
    );
    assert_eq!(Frame::Array(vec![]).display_string(), "");
    assert_eq!(
        Frame::Moved {
            slot: 3999,
            host: "127.0.0.1".into(),
            port: 6381
        }
        .display_string(),
        "MOVED 3999 127.0.0.1:6381"
    );
    assert_eq!(
        Frame::Ask {
            slot: 1,
            host: "h".into(),
            port: 2
        }
        .display_string(),
        "ASK 1 h:2"
    );
}

#[test]
fn clones_are_deep_and_equal() {
    let f = Frame::Array(vec![
        Frame::BulkString(vec![1, 2, 3]),
        Frame::Array(vec![Frame::SimpleString("x".into())]),
    ]);
    let g = f.clone();
    assert_eq!(f, g);
}
