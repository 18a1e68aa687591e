use protohackers::lrcp::{
    escape_data, reverse_chars, unescape_data, Admission, LrcpSession, Message, MessageData, Payload,
    SessionRegistry,
};

fn data_of(m: &MessageData) -> Option<(usize, Vec<u8>)> {
    match m {
        MessageData::Data(p) => Some((p.pos, p.data.clone())),
        _ => None,
    }
}

#[test]
fn escaping() {
    assert_eq!(escape_data(b"a/b\\c"), b"a\\\\/b\\\\c".to_vec());
    assert_eq!(unescape_data(b"a\\/b\\\\c"), b"a/b\\c".to_vec());
    assert_eq!(unescape_data(&escape_data(b"plain \\ text")), b"plain \\ text".to_vec());
}

#[test]
fn escaping_a_slash_is_not_undone() {
    assert_eq!(escape_data(b"/"), b"\\\\/".to_vec());
    assert_eq!(unescape_data(&escape_data(b"/")), b"\\/".to_vec());
}

#[test]
fn payload_text() {
    let p = Payload::from_str(b"12/hello\\/x").unwrap();
    assert_eq!(p.pos, 12);
    assert_eq!(p.data, b"hello/x".to_vec());
    assert!(Payload::from_str(b"hello").is_err());
    assert!(Payload::from_str(b"x/hello").is_err());
    let q = Payload { pos: 3, data: b"a\\b".to_vec() };
    assert_eq!(q.to_string(), b"3/a\\\\b".to_vec());
}

#[test]
fn reading_messages() {
    let m = Message::from_buf(b"/connect/12345/").unwrap();
    assert_eq!(m.session_id, 12345);
    assert!(matches!(m.data, MessageData::Connect));

    let m = Message::from_buf(b"/data/12345/0/hello\n/").unwrap();
    assert_eq!(data_of(&m.data), Some((0, b"hello\n".to_vec())));

    let m = Message::from_buf(b"/ack/12345/6/").unwrap();
    assert!(matches!(m.data, MessageData::Ack(6)));

    let m = Message::from_buf(b"/close/12345/ \n").unwrap();
    assert!(matches!(m.data, MessageData::Close));
}

#[test]
fn refusing_messages() {
    assert!(Message::from_buf(b"connect/1/").is_err());
    assert!(Message::from_buf(b"/connect/1").is_err());
    assert!(Message::from_buf(b"/foo/1/").is_err());
    assert!(Message::from_buf(b"/connect/x/").is_err());
    assert!(Message::from_buf(b"/ack/1/").is_err());
    assert!(Message::from_buf(b"/data/1/5/").is_err());
    assert!(Message::from_buf(&[b'/', 0xff, b'/']).is_err());
    assert!(Message::from_buf(b"").is_err());
}

#[test]
fn writing_messages() {
    let m = Message { session_id: 7, data: MessageData::Ack(42) };
    assert_eq!(m.to_string(), b"/ack/7/42/".to_vec());
    let m = Message { session_id: 7, data: MessageData::Data(Payload { pos: 0, data: b"x/y\n".to_vec() }) };
    assert_eq!(m.to_string(), b"/data/7/0/x\\\\/y\n/".to_vec());
    let m = Message { session_id: 1, data: MessageData::Close };
    assert_eq!(m.to_string(), b"/close/1/".to_vec());
    let m = Message { session_id: 2, data: MessageData::Connect };
    assert_eq!(m.to_string(), b"/connect/2/".to_vec());
}

#[test]
fn message_round_trip() {
    for m in [
        Message { session_id: 9, data: MessageData::Connect },
        Message { session_id: 0, data: MessageData::Ack(123) },
        Message { session_id: 55, data: MessageData::Data(Payload { pos: 4, data: "héllo\\\n".as_bytes().to_vec() }) },
        Message { session_id: 3, data: MessageData::Close },
    ] {
        let back = Message::from_buf(&m.to_string()).unwrap();
        assert_eq!(back.session_id, m.session_id);
        assert_eq!(back.to_string(), m.to_string());
    }
}

#[test]
fn session_receives_in_order() {
    let mut s = LrcpSession::new(5);
    let (reply, got) = s.on_message(MessageData::Connect);
    assert!(matches!(reply, Some(MessageData::Ack(0))));
    assert!(got.is_none());

    let (reply, got) = s.on_message(MessageData::Data(Payload { pos: 0, data: b"hello\n".to_vec() }));
    assert!(matches!(reply, Some(MessageData::Ack(6))));
    assert_eq!(got, Some(b"hello\n".to_vec()));
    assert_eq!(s.recv_bin, b"hello\n".to_vec());

    let (reply, got) = s.on_message(MessageData::Data(Payload { pos: 3, data: b"lo".to_vec() }));
    assert!(matches!(reply, Some(MessageData::Ack(6))));
    assert!(got.is_none());
    assert_eq!(s.max_client_pos, 6);
}

#[test]
fn session_acknowledgements() {
    let mut s = LrcpSession::new(1);
    let out = s.write_message(b"olleh\n");
    assert_eq!(out.session_id, 1);
    assert_eq!(data_of(&out.data), Some((0, b"olleh\n".to_vec())));
    s.commit_write(b"olleh\n");
    assert_eq!(s.max_server_pos, 6);

    let (reply, _) = s.on_message(MessageData::Ack(2));
    assert_eq!(data_of(reply.as_ref().unwrap()), Some((2, b"leh\n".to_vec())));
    let (reply, _) = s.on_message(MessageData::Ack(6));
    assert!(reply.is_none());
    let (reply, _) = s.on_message(MessageData::Ack(0));
    assert!(reply.is_none());
    let (reply, _) = s.on_message(MessageData::Ack(9));
    assert!(matches!(reply, Some(MessageData::Close)));
    let (reply, _) = s.on_message(MessageData::Close);
    assert!(matches!(reply, Some(MessageData::Close)));
}

#[test]
fn registry_admission() {
    let mut r = SessionRegistry::new();
    let data = Message { session_id: 4, data: MessageData::Ack(0) };
    assert_eq!(r.route(&data), Admission::Unknown);
    let connect = Message { session_id: 4, data: MessageData::Connect };
    assert_eq!(r.route(&connect), Admission::New);
    assert_eq!(r.route(&connect), Admission::Known);
    assert_eq!(r.route(&data), Admission::Known);
    assert_eq!(r.ids, vec![4]);
}

#[test]
fn lines_are_reversed_by_character() {
    let r: String = reverse_chars("hello\n").into_iter().collect();
    assert_eq!(r, "\nolleh");
    let r: String = reverse_chars("héé!").into_iter().collect();
    assert_eq!(r, "!ééh");
    assert!(reverse_chars("").is_empty());
}
