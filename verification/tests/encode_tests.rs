use bytes::BytesMut;
use resp_codec::encode::encode;
use resp_codec::types::Frame;

const PADDING: &'static str = "foobar";

fn str_to_bytes(s: &str) -> Vec<u8> {
    s.as_bytes().to_vec()
}

fn empty_bytes() -> BytesMut {
    BytesMut::new()
}

fn encode_and_verify_empty(input: &Frame, expected: &str) {
    let mut buf = empty_bytes();

    let len = match encode(&mut buf, input) {
        Ok(l) => l,
        Err(e) => panic!("{:?}", e),
    };

    assert_eq!(buf, expected.as_bytes(), "empty buf contents match");
    assert_eq!(len, expected.as_bytes().len(), "empty expected len is correct");
}

fn encode_and_verify_non_empty(input: &Frame, expected: &str) {
    let mut buf = empty_bytes();
    buf.extend_from_slice(PADDING.as_bytes());

    let len = match encode(&mut buf, input) {
        Ok(l) => l,
        Err(e) => panic!("{:?}", e),
    };
    let padded = vec![PADDING, expected].join("");

    assert_eq!(buf, padded.as_bytes(), "padded buf contents match");
    assert_eq!(len, padded.as_bytes().len(), "padded expected len is correct");
}

fn encode_raw_and_verify_empty(input: &Frame, expected: &str) {
    let mut buf = BytesMut::new();

    let len = match encode(&mut buf, input) {
        Ok(l) => l,
        Err(e) => panic!("{:?}", e),
    };

    assert_eq!(buf, expected.as_bytes(), "empty buf contents match");
    assert_eq!(len, expected.as_bytes().len(), "empty expected len is correct");
}

#[test]
fn should_encode_llen_req_example() {
    let expected = "*2\r\n$4\r\nLLEN\r\n$6\r\nmylist\r\n";
    let input = Frame::Array(vec![
        Frame::BulkString(str_to_bytes("LLEN")),
        Frame::BulkString(str_to_bytes("mylist")),
    ]);

    encode_and_verify_empty(&input, expected);
    encode_and_verify_non_empty(&input, expected);
}

#[test]
fn should_encode_incr_req_example() {
    let expected = "*2\r\n$4\r\nINCR\r\n$5\r\nmykey\r\n";
    let input = Frame::Array(vec![
        Frame::BulkString(str_to_bytes("INCR")),
        Frame::BulkString(str_to_bytes("mykey")),
    ]);

    encode_and_verify_empty(&input, expected);
    encode_and_verify_non_empty(&input, expected);
}

#[test]
fn should_encode_bitcount_req_example() {
    let expected = "*2\r\n$8\r\nBITCOUNT\r\n$5\r\nmykey\r\n";
    let input = Frame::Array(vec![
        Frame::BulkString(str_to_bytes("BITCOUNT")),
        Frame::BulkString(str_to_bytes("mykey")),
    ]);

    encode_and_verify_empty(&input, expected);
    encode_and_verify_non_empty(&input, expected);
}

#[test]
fn should_encode_array_bulk_string_test() {
    let expected = "*3\r\n$5\r\nWATCH\r\n$6\r\nWIBBLE\r\n$9\r\nfooBARbaz\r\n";
    let input = Frame::Array(vec![
        Frame::BulkString(str_to_bytes("WATCH")),
        Frame::BulkString(str_to_bytes("WIBBLE")),
        Frame::BulkString(str_to_bytes("fooBARbaz")),
    ]);

    encode_and_verify_empty(&input, expected);
    encode_and_verify_non_empty(&input, expected);
}

#[test]
fn should_encode_array_nested_test() {
    let expected = "*2\r\n*3\r\n:1\r\n:2\r\n:3\r\n*2\r\n+Foo\r\n-Bar\r\n";
    let input = Frame::Array(vec![
        Frame::Array(vec![
            Frame::Integer(1),
            Frame::Integer(2),
            Frame::Integer(3),
        ]),
        Frame::Array(vec![
            Frame::SimpleString("Foo".to_string()),
            Frame::Error("Bar".to_string()),
        ]),
    ]);

    encode_and_verify_empty(&input, expected);
    encode_and_verify_non_empty(&input, expected);
}

#[test]
fn should_encode_array_null_test() {
    let expected = "*3\r\n$4\r\nHSET\r\n$3\r\nfoo\r\n$-1\r\n";
    let input = Frame::Array(vec![
        Frame::BulkString(str_to_bytes("HSET")),
        Frame::BulkString(str_to_bytes("foo")),
        Frame::Null,
    ]);

    encode_and_verify_empty(&input, expected);
    encode_and_verify_non_empty(&input, expected);
}

#[test]
fn should_encode_raw_llen_req_example() {
    let expected = "*2\r\n$4\r\nLLEN\r\n$6\r\nmylist\r\n";
    let input = Frame::Array(vec![
        Frame::BulkString(str_to_bytes("LLEN")),
        Frame::BulkString(str_to_bytes("mylist")),
    ]);

    encode_raw_and_verify_empty(&input, expected);
}

#[test]
fn should_encode_raw_incr_req_example() {
    let expected = "*2\r\n$4\r\nINCR\r\n$5\r\nmykey\r\n";
    let input = Frame::Array(vec![
        Frame::BulkString(str_to_bytes("INCR")),
        Frame::BulkString(str_to_bytes("mykey")),
    ]);

    encode_raw_and_verify_empty(&input, expected);
}

#[test]
fn should_encode_raw_bitcount_req_example() {
    let expected = "*2\r\n$8\r\nBITCOUNT\r\n$5\r\nmykey\r\n";
    let input = Frame::Array(vec![
        Frame::BulkString(str_to_bytes("BITCOUNT")),
        Frame::BulkString(str_to_bytes("mykey")),
    ]);

    encode_raw_and_verify_empty(&input, expected);
}

#[test]
fn should_encode_raw_array_bulk_string_test() {
    let expected = "*3\r\n$5\r\nWATCH\r\n$6\r\nWIBBLE\r\n$9\r\nfooBARbaz\r\n";
    let input = Frame::Array(vec![
        Frame::BulkString(str_to_bytes("WATCH")),
        Frame::BulkString(str_to_bytes("WIBBLE")),
        Frame::BulkString(str_to_bytes("fooBARbaz")),
    ]);

    encode_raw_and_verify_empty(&input, expected);
}

#[test]
fn should_encode_raw_array_null_test() {
    let expected = "*3\r\n$4\r\nHSET\r\n$3\r\nfoo\r\n$-1\r\n";
    let input = Frame::Array(vec![
        Frame::BulkString(str_to_bytes("HSET")),
        Frame::BulkString(str_to_bytes("foo")),
        Frame::Null,
    ]);

    encode_raw_and_verify_empty(&input, expected);
}

#[test]
fn should_encode_moved_error() {
    let expected = "-MOVED 3999 127.0.0.1:6381\r\n";
    let input = Frame::Moved {
        slot: 3999,
        host: "127.0.0.1".to_string(),
        port: 6381,
    };

    encode_and_verify_empty(&input, expected);
    encode_and_verify_non_empty(&input, expected);
}

#[test]
fn should_encode_ask_error() {
    let expected = "-ASK 3999 127.0.0.1:6381\r\n";
    let input = Frame::Ask {
        slot: 3999,
        host: "127.0.0.1".to_string(),
        port: 6381,
    };

    encode_and_verify_empty(&input, expected);
    encode_and_verify_non_empty(&input, expected);
}

#[test]
fn should_encode_error() {
    let expected = "-WRONGTYPE Operation against a key holding the wrong kind of value\r\n";
    let input =
        Frame::Error("WRONGTYPE Operation against a key holding the wrong kind of value".into());

    encode_and_verify_empty(&input, expected);
    encode_and_verify_non_empty(&input, expected);
}

#[test]
fn should_encode_simplestring() {
    let expected = "+OK\r\n";
    let input = Frame::SimpleString("OK".into());

    encode_and_verify_empty(&input, expected);
    encode_and_verify_non_empty(&input, expected);
}

#[test]
fn should_encode_integer() {
    let i1_expected = ":1000\r\n";
    let i1_input = Frame::Integer(1000);

    encode_and_verify_empty(&i1_input, i1_expected);
    encode_and_verify_non_empty(&i1_input, i1_expected);
}

#[test]
fn should_encode_negative_integer() {
    let i2_expected = ":-1000\r\n";
    let i2_input = Frame::Integer(-1000);

    encode_and_verify_empty(&i2_input, i2_expected);
    encode_and_verify_non_empty(&i2_input, i2_expected);
}
