use bytes::BytesMut;
use stomp_broker::proto::stomp::{Frame, FrameError, STOMPCodec, STOMPFrame};

#[test]
fn decode_takes_the_whole_buffer() {
    let mut codec = STOMPCodec::new();
    let mut buf = BytesMut::from(&b"SEND\ndestination:/queue/foo\n\0"[..]);
    let frame = codec.decode(&mut buf).unwrap();
    assert_eq!(frame.kind, Frame::Send);
    assert_eq!(frame.get_header("destination").unwrap(), "/queue/foo");
    assert!(buf.is_empty());
}

#[test]
fn decode_of_empty_buffer_gives_nothing() {
    let mut codec = STOMPCodec::new();
    let mut buf = BytesMut::new();
    assert!(codec.decode(&mut buf).is_none());
    assert!(buf.is_empty());
}

#[test]
fn try_decode_leaves_a_bad_buffer_alone() {
    let mut codec = STOMPCodec::new();
    let mut buf = BytesMut::from(&[0xc3u8, 0x28][..]);
    assert_eq!(codec.try_decode(&mut buf).unwrap_err(), FrameError::InvalidUtf8);
    assert_eq!(&buf[..], &[0xc3u8, 0x28][..]);

    let mut buf = BytesMut::from(&b"SEND\nbody"[..]);
    assert_eq!(codec.try_decode(&mut buf).unwrap_err(), FrameError::MalformedHeader);
    assert_eq!(&buf[..], &b"SEND\nbody"[..]);
}

#[test]
fn try_decode_reads_a_frame() {
    let mut codec = STOMPCodec::new();
    let mut buf = BytesMut::from(&b"NACK\nid:3"[..]);
    let frame = codec.try_decode(&mut buf).unwrap().unwrap();
    assert_eq!(frame.kind, Frame::Nack);
    assert!(buf.is_empty());
    assert!(codec.try_decode(&mut buf).unwrap().is_none());
}

#[test]
fn encode_appends_the_fixed_reply() {
    let mut codec = STOMPCodec::new();
    let mut dst = BytesMut::from(&b"xy"[..]);
    codec.encode(STOMPFrame::new(), &mut dst);
    assert_eq!(&dst[..], &b"xyabhi\r\n"[..]);
    let frame = STOMPCodec::new().decode(&mut BytesMut::from(&b"SEND\na:b"[..])).unwrap();
    codec.encode(frame, &mut dst);
    assert_eq!(&dst[..], &b"xyabhi\r\nabhi\r\n"[..]);
}

#[test]
fn codec_keeps_no_state_between_calls() {
    let text = &b"SUBSCRIBE\nid:1\ndestination:/queue/x"[..];
    let mut used = STOMPCodec::new();
    let mut warm = BytesMut::from(&b"SEND\na:b"[..]);
    used.decode(&mut warm);
    let mut out = BytesMut::new();
    used.encode(STOMPFrame::new(), &mut out);
    let mut fresh = STOMPCodec::new();
    let mut b1 = BytesMut::from(text);
    let mut b2 = BytesMut::from(text);
    let f1 = fresh.try_decode(&mut b1).unwrap().unwrap();
    let f2 = used.try_decode(&mut b2).unwrap().unwrap();
    assert_eq!(f1.kind, f2.kind);
    assert_eq!(f1.headers, f2.headers);
    assert_eq!(&b1[..], &b2[..]);
    let mut bad1 = BytesMut::from(&[0xffu8][..]);
    let mut bad2 = BytesMut::from(&[0xffu8][..]);
    assert_eq!(fresh.try_decode(&mut bad1).unwrap_err(), used.try_decode(&mut bad2).unwrap_err());
    assert_eq!(&bad1[..], &bad2[..]);
}
