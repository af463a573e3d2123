use stomp_broker::proto::stomp::{
    frame_from_bytes, try_frame_from_bytes, Frame, FrameError, STOMPFrame, STOMPParser,
};

fn header_pairs(frame: &STOMPFrame) -> Vec<(&str, &str)> {
    frame
        .headers
        .iter()
        .map(|(k, v)| (k.as_str(), v.as_str()))
        .collect()
}

#[test]
fn parse_subscribe_frame() {
    let parser = STOMPParser::new();
    let frame = parser.parse("SUBSCRIBE\nid:0\ndestination:/queue/foo\nack:client\n\0");
    assert_eq!(frame.kind, Frame::Subscribe);
    assert_eq!(
        header_pairs(&frame),
        vec![("id", "0"), ("destination", "/queue/foo"), ("ack", "client")]
    );
}

#[test]
fn parse_every_client_command() {
    let parser = STOMPParser::new();
    let cases = [
        ("SEND", Frame::Send),
        ("SUBSCRIBE", Frame::Subscribe),
        ("UNSUBSCRIBE", Frame::Unsubscribe),
        ("BEGIN", Frame::Begin),
        ("COMMIT", Frame::Commit),
        ("ABORT", Frame::Abort),
        ("ACK", Frame::Ack),
        ("NACK", Frame::Nack),
        ("DISCONNECT", Frame::Disconnect),
    ];
    for (text, kind) in cases.iter() {
        let frame = parser.parse(text);
        assert_eq!(frame.kind, *kind);
        assert!(frame.headers.is_empty());
    }
}

#[test]
fn server_commands_parse_as_invalid() {
    let parser = STOMPParser::new();
    for text in ["MESSAGE", "RECEIPT", "ERROR", "INVALID", "CONNECT", "send"].iter() {
        assert_eq!(parser.parse(text).kind, Frame::Invalid);
    }
}

#[test]
fn parse_skips_empty_and_nul_lines() {
    let parser = STOMPParser::new();
    let frame = parser.parse("\n\nSEND\n\n\0\ndestination:/queue/a\n\n");
    assert_eq!(frame.kind, Frame::Send);
    assert_eq!(header_pairs(&frame), vec![("destination", "/queue/a")]);
}

#[test]
fn later_header_replaces_earlier_one() {
    let parser = STOMPParser::new();
    let frame = parser.parse("SEND\na:1\nb:2\na:3");
    assert_eq!(header_pairs(&frame), vec![("a", "3"), ("b", "2")]);
    assert_eq!(frame.get_header("a").map(|s| s.as_str()), Some("3"));
    assert_eq!(frame.get_header("b").map(|s| s.as_str()), Some("2"));
    assert_eq!(frame.get_header("c"), None);
}

#[test]
fn header_value_stops_at_second_colon() {
    let parser = STOMPParser::new();
    let frame = parser.parse("SEND\nhost:example.com:61613\nempty:");
    assert_eq!(
        header_pairs(&frame),
        vec![("host", "example.com"), ("empty", "")]
    );
}

#[test]
fn parse_keeps_carriage_returns() {
    let parser = STOMPParser::new();
    let frame = parser.parse("SEND\r\nk:v\r\n");
    assert_eq!(frame.kind, Frame::Invalid);
    assert_eq!(header_pairs(&frame), vec![("k", "v\r")]);
}

#[test]
fn try_parse_reports_missing_command() {
    let parser = STOMPParser::new();
    assert_eq!(parser.try_parse("").unwrap_err(), FrameError::MissingCommand);
    assert_eq!(parser.try_parse("\n\0\n\n").unwrap_err(), FrameError::MissingCommand);
}

#[test]
fn try_parse_reports_malformed_header() {
    let parser = STOMPParser::new();
    let r = parser.try_parse("SEND\ndestination:/queue/foo\ncontent-length:5\nabhi\n\0");
    assert_eq!(r.unwrap_err(), FrameError::MalformedHeader);
}

#[test]
fn try_parse_agrees_with_parse() {
    let parser = STOMPParser::new();
    let text = "ACK\nid:7\nmessage-id:12";
    let a = parser.try_parse(text).unwrap();
    let b = parser.parse(text);
    assert_eq!(a.kind, b.kind);
    assert_eq!(header_pairs(&a), header_pairs(&b));
}

#[test]
fn new_frame_is_invalid_and_empty() {
    let frame = STOMPFrame::new();
    assert_eq!(frame.kind, Frame::Invalid);
    assert!(frame.headers.is_empty());
    assert_eq!(frame.to_string(), "INVALID");
}

#[test]
fn frame_names() {
    let cases = [
        (Frame::Send, "SEND"),
        (Frame::Subscribe, "SUBSCRIBE"),
        (Frame::Unsubscribe, "UNSUBSCRIBE"),
        (Frame::Begin, "BEGIN"),
        (Frame::Commit, "COMMIT"),
        (Frame::Abort, "ABORT"),
        (Frame::Ack, "ACK"),
        (Frame::Nack, "NACK"),
        (Frame::Disconnect, "DISCONNECT"),
        (Frame::Message, "MESSAGE"),
        (Frame::Receipt, "RECEIPT"),
        (Frame::Error, "ERROR"),
        (Frame::Invalid, "INVALID"),
    ];
    for (kind, name) in cases.iter() {
        assert_eq!(kind.name(), *name);
        assert_eq!(kind.to_string(), *name);
        assert_eq!(Frame::from_command(name).name(), if *kind == Frame::Message
            || *kind == Frame::Receipt
            || *kind == Frame::Error
        {
            "INVALID"
        } else {
            *name
        });
    }
}

#[test]
fn parsing_a_name_gives_the_command_back() {
    let parser = STOMPParser::new();
    for kind in [Frame::Send, Frame::Ack, Frame::Disconnect, Frame::Message].iter() {
        let frame = parser.parse(kind.name());
        let expected = if *kind == Frame::Message { Frame::Invalid } else { *kind };
        assert_eq!(frame.kind, expected);
        assert!(frame.headers.is_empty());
    }
}

#[test]
fn frame_text_form() {
    let parser = STOMPParser::new();
    let frame = parser.parse("SUBSCRIBE\nid:0\ndestination:/queue/foo");
    assert_eq!(frame.to_string(), "SUBSCRIBEid, 0destination, /queue/foo");
}

#[test]
fn frame_from_utf8_bytes() {
    let frame = frame_from_bytes("UNSUBSCRIBE\nid:0\n\0".as_bytes());
    assert_eq!(frame.kind, Frame::Unsubscribe);
    assert_eq!(header_pairs(&frame), vec![("id", "0")]);
    let text = "SEND\nsubject:caf\u{e9}";
    let frame = frame_from_bytes(text.as_bytes());
    assert_eq!(header_pairs(&frame), vec![("subject", "caf\u{e9}")]);
}

#[test]
fn bytes_errors() {
    assert_eq!(
        try_frame_from_bytes(&[0x53, 0xff, 0x45]).unwrap_err(),
        FrameError::InvalidUtf8
    );
    assert_eq!(try_frame_from_bytes(b"\0").unwrap_err(), FrameError::MissingCommand);
    assert_eq!(
        try_frame_from_bytes(b"SEND\nnocolon").unwrap_err(),
        FrameError::MalformedHeader
    );
    assert_eq!(try_frame_from_bytes(b"BEGIN\ntransaction:t1").unwrap().kind, Frame::Begin);
}

#[test]
fn blank_and_nul_lines_change_nothing() {
    let parser = STOMPParser::new();
    let base = "SEND\ndestination:/queue/a\nreceipt:7";
    let a = parser.parse(base);
    for text in [
        "\nSEND\ndestination:/queue/a\nreceipt:7",
        "SEND\n\ndestination:/queue/a\nreceipt:7",
        "SEND\n\0\ndestination:/queue/a\nreceipt:7",
        "\0\nSEND\ndestination:/queue/a\n\n\0\nreceipt:7",
    ]
    .iter()
    {
        let b = parser.parse(text);
        assert_eq!(a.kind, b.kind);
        assert_eq!(header_pairs(&a), header_pairs(&b));
    }
    assert_eq!(
        parser.try_parse("\n\0\nSEND\nbad").unwrap_err(),
        parser.try_parse("SEND\nbad").unwrap_err()
    );
}
