use mini_kv::connection::{encode_response, FrameDecoder, WireError};
use mini_kv::frame::Frame;

fn decode_all(bytes: &[u8]) -> Result<Option<Frame>, WireError> {
    let mut d = FrameDecoder::new();
    d.feed(&bytes.to_vec());
    d.try_frame()
}

fn round_trip(f: Frame) {
    let bytes = mini_kv::codec::encode_frame(&f);
    let mut d = FrameDecoder::new();
    d.feed(&bytes);
    assert_eq!(d.try_frame(), Ok(Some(f)));
    assert_eq!(d.buffered(), 0);
}

#[test]
fn round_trip_simple() {
    round_trip(Frame::Simple(b"OK".to_vec()));
}

#[test]
fn round_trip_simple_multibyte_text() {
    round_trip(Frame::Simple("héllo ✓".as_bytes().to_vec()));
}

#[test]
fn round_trip_error() {
    round_trip(Frame::Error(b"ERR unknown key".to_vec()));
}

#[test]
fn round_trip_integers() {
    round_trip(Frame::Integer(0));
    round_trip(Frame::Integer(123));
    round_trip(Frame::Integer(-45));
    round_trip(Frame::Integer(i64::MAX));
    round_trip(Frame::Integer(i64::MIN));
}

#[test]
fn round_trip_null_and_bulk() {
    round_trip(Frame::Null);
    round_trip(Frame::Bulk(b"".to_vec()));
    round_trip(Frame::Bulk(b"hello\r\nworld".to_vec()));
}

#[test]
fn round_trip_array_nested() {
    round_trip(Frame::Array(vec![
        Frame::Bulk(b"get".to_vec()),
        Frame::Integer(7),
        Frame::Array(vec![Frame::Null, Frame::Simple(b"x".to_vec())]),
    ]));
}

#[test]
fn encoding_is_bit_exact() {
    assert_eq!(
        mini_kv::codec::encode_frame(&Frame::Simple(b"OK".to_vec())),
        b"+OK\r\n".to_vec()
    );
    assert_eq!(
        mini_kv::codec::encode_frame(&Frame::Integer(-12)),
        b":-12\r\n".to_vec()
    );
    assert_eq!(mini_kv::codec::encode_frame(&Frame::Null), b"$-1\r\n".to_vec());
    assert_eq!(
        mini_kv::codec::encode_frame(&Frame::Bulk(b"bar".to_vec())),
        b"$3\r\nbar\r\n".to_vec()
    );
    assert_eq!(
        mini_kv::codec::encode_frame(&Frame::Array(vec![
            Frame::Bulk(b"get".to_vec()),
            Frame::Bulk(b"foo".to_vec()),
        ])),
        b"*2\r\n$3\r\nget\r\n$3\r\nfoo\r\n".to_vec()
    );
}

#[test]
fn incremental_feed_byte_by_byte() {
    let f = Frame::Array(vec![Frame::Bulk(b"set".to_vec()), Frame::Integer(-8)]);
    let bytes = mini_kv::codec::encode_frame(&f);
    let mut d = FrameDecoder::new();
    for (i, b) in bytes.iter().enumerate() {
        d.feed(&vec![*b]);
        if i + 1 < bytes.len() {
            assert_eq!(d.try_frame(), Ok(None), "prefix of length {} not incomplete", i + 1);
        } else {
            assert_eq!(d.try_frame(), Ok(Some(f)));
            break;
        }
    }
}

#[test]
fn bulk_short_by_one_byte_is_incomplete() {
    let mut d = FrameDecoder::new();
    d.feed(&b"$3\r\nab".to_vec());
    assert_eq!(d.try_frame(), Ok(None));
    d.feed(&b"c".to_vec());
    assert_eq!(d.try_frame(), Ok(None));
    d.feed(&b"\r\n".to_vec());
    assert_eq!(d.try_frame(), Ok(Some(Frame::Bulk(b"abc".to_vec()))));
}

#[test]
fn buffer_keeps_exactly_the_next_frame() {
    let f1 = Frame::Simple(b"OK".to_vec());
    let f2 = Frame::Bulk(b"bar".to_vec());
    let mut bytes = mini_kv::codec::encode_frame(&f1);
    let second = mini_kv::codec::encode_frame(&f2);
    bytes.extend_from_slice(&second);
    let mut d = FrameDecoder::new();
    d.feed(&bytes);
    assert_eq!(d.try_frame(), Ok(Some(f1)));
    assert_eq!(d.buffered(), second.len());
    assert_eq!(d.try_frame(), Ok(Some(f2)));
    assert_eq!(d.buffered(), 0);
}

#[test]
fn clean_close_versus_reset() {
    let mut d = FrameDecoder::new();
    assert_eq!(d.on_close(), Ok(()));
    d.feed(&b"$3\r\nab".to_vec());
    assert_eq!(d.on_close(), Err(WireError::Reset));
}

#[test]
fn malformed_leading_byte() {
    assert_eq!(decode_all(b"xhello\r\n"), Err(WireError::Malformed));
}

#[test]
fn malformed_non_decimal_integer() {
    assert_eq!(decode_all(b":12a\r\n"), Err(WireError::Malformed));
    assert_eq!(decode_all(b":\r\n"), Err(WireError::Malformed));
}

#[test]
fn malformed_integer_out_of_range() {
    assert_eq!(decode_all(b":9223372036854775808\r\n"), Err(WireError::Malformed));
    assert_eq!(decode_all(b":-9223372036854775809\r\n"), Err(WireError::Malformed));
}

#[test]
fn malformed_negative_bulk_length() {
    assert_eq!(decode_all(b"$-2\r\n"), Err(WireError::Malformed));
}

#[test]
fn malformed_bulk_terminator() {
    assert_eq!(decode_all(b"$1\r\naXY"), Err(WireError::Malformed));
}

#[test]
fn malformed_non_utf8_text() {
    assert_eq!(decode_all(b"+a\xffb\r\n"), Err(WireError::Malformed));
    assert_eq!(decode_all(b"-a\xc3\x28\r\n"), Err(WireError::Malformed));
}

#[test]
fn malformed_inside_array_is_fatal() {
    assert_eq!(decode_all(b"*1\r\n:bad\r\n"), Err(WireError::Malformed));
}

#[test]
fn array_missing_element_is_incomplete() {
    assert_eq!(decode_all(b"*2\r\n$3\r\nfoo\r\n"), Ok(None));
}

#[test]
fn write_path_refuses_array_output() {
    let r = encode_response(&Frame::Array(vec![Frame::Null]));
    assert_eq!(r, Err(WireError::Unsupported));
    let ok = encode_response(&Frame::Simple(b"OK".to_vec()));
    assert_eq!(ok, Ok(b"+OK\r\n".to_vec()));
}

#[test]
fn decoded_frames_encode_back_to_the_same_bytes() {
    for bytes in [
        b"+OK\r\n".to_vec(),
        b"-ERR oops\r\n".to_vec(),
        b":42\r\n".to_vec(),
        b"$-1\r\n".to_vec(),
        b"$3\r\nfoo\r\n".to_vec(),
        b"*2\r\n$3\r\nget\r\n$3\r\nfoo\r\n".to_vec(),
    ] {
        let mut d = FrameDecoder::new();
        d.feed(&bytes);
        let frame = d.try_frame().unwrap().unwrap();
        assert_eq!(mini_kv::codec::encode_frame(&frame), bytes);
    }
}
