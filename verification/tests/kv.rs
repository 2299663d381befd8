use mini_kv::command::{Command, CommandError};
use mini_kv::connection::WireError;
use mini_kv::frame::Frame;
use mini_kv::mailbox::{begin_exchange, fetch_reply, store_reply, Mailbox, Pending};
use mini_kv::store::KvStore;

fn bulk(s: &[u8]) -> Frame {
    Frame::Bulk(s.to_vec())
}

#[test]
fn store_then_fetch_scenario() {
    let mut db = KvStore::new();
    let set = Command::Store { key: b"foo".to_vec(), value: b"bar".to_vec() };
    assert_eq!(db.apply(&set), Frame::Simple(b"OK".to_vec()));
    let get = Command::Fetch { key: b"foo".to_vec() };
    assert_eq!(db.apply(&get), Frame::Bulk(b"bar".to_vec()));
    let miss = Command::Fetch { key: b"missing".to_vec() };
    assert_eq!(db.apply(&miss), Frame::Null);
}

#[test]
fn later_store_wins() {
    let mut db = KvStore::new();
    db.apply(&Command::Store { key: b"k".to_vec(), value: b"1".to_vec() });
    db.apply(&Command::Store { key: b"k".to_vec(), value: b"2".to_vec() });
    assert_eq!(
        db.apply(&Command::Fetch { key: b"k".to_vec() }),
        Frame::Bulk(b"2".to_vec())
    );
}

#[test]
fn command_from_frame_case_insensitive() {
    let f = Frame::Array(vec![bulk(b"GeT"), bulk(b"foo")]);
    assert_eq!(
        Command::from_frame(&f),
        Ok(Command::Fetch { key: b"foo".to_vec() })
    );
    let f = Frame::Array(vec![bulk(b"SET"), bulk(b"k"), bulk(b"v")]);
    assert_eq!(
        Command::from_frame(&f),
        Ok(Command::Store { key: b"k".to_vec(), value: b"v".to_vec() })
    );
}

#[test]
fn command_arity_violations_are_shape_errors() {
    let f = Frame::Array(vec![bulk(b"get")]);
    assert_eq!(Command::from_frame(&f), Err(CommandError::Shape));
    let f = Frame::Array(vec![bulk(b"get"), bulk(b"a"), bulk(b"b")]);
    assert_eq!(Command::from_frame(&f), Err(CommandError::Shape));
    let f = Frame::Array(vec![bulk(b"set"), bulk(b"a")]);
    assert_eq!(Command::from_frame(&f), Err(CommandError::Shape));
}

#[test]
fn command_shape_violations() {
    assert_eq!(
        Command::from_frame(&Frame::Simple(b"get".to_vec())),
        Err(CommandError::Shape)
    );
    assert_eq!(Command::from_frame(&Frame::Array(vec![])), Err(CommandError::Shape));
    let f = Frame::Array(vec![bulk(b"get"), Frame::Integer(3)]);
    assert_eq!(Command::from_frame(&f), Err(CommandError::Shape));
}

#[test]
fn unknown_verb_is_distinct() {
    let f = Frame::Array(vec![bulk(b"del"), bulk(b"foo")]);
    assert_eq!(Command::from_frame(&f), Err(CommandError::UnknownVerb));
}

#[test]
fn request_frame_wire_bytes() {
    let fetch = Command::Fetch { key: b"foo".to_vec() };
    let frame = fetch.to_frame();
    assert_eq!(
        mini_kv::codec::encode_frame(&frame),
        b"*2\r\n$3\r\nget\r\n$3\r\nfoo\r\n".to_vec()
    );
    let store = Command::Store { key: b"foo".to_vec(), value: b"bar".to_vec() };
    assert_eq!(
        mini_kv::codec::encode_frame(&store.to_frame()),
        b"*3\r\n$3\r\nset\r\n$3\r\nfoo\r\n$3\r\nbar\r\n".to_vec()
    );
}

#[test]
fn request_round_trips_through_the_codec() {
    let store = Command::Store { key: b"x".to_vec(), value: b"1".to_vec() };
    let bytes = mini_kv::codec::encode_frame(&store.to_frame());
    let mut d = mini_kv::connection::FrameDecoder::new();
    d.feed(&bytes);
    let frame = d.try_frame().unwrap().unwrap();
    assert_eq!(Command::from_frame(&frame), Ok(store));
}

#[test]
fn mailbox_is_fifo_and_bounded() {
    let mut mb = Mailbox::new(2);
    assert!(mb.try_enqueue(Pending { cmd: Command::Store { key: b"x".to_vec(), value: b"1".to_vec() }, slot: 10 }));
    assert!(mb.try_enqueue(Pending { cmd: Command::Fetch { key: b"x".to_vec() }, slot: 11 }));
    assert!(!mb.try_enqueue(Pending { cmd: Command::Fetch { key: b"y".to_vec() }, slot: 12 }));
    assert_eq!(mb.len(), 2);

    let first = mb.take_next().unwrap();
    assert_eq!(first.slot, 10);
    let (bytes, slot) = begin_exchange(&first);
    assert_eq!(slot, 10);
    assert_eq!(bytes, b"*3\r\n$3\r\nset\r\n$1\r\nx\r\n$1\r\n1\r\n".to_vec());

    let second = mb.take_next().unwrap();
    assert_eq!(second.slot, 11);
    let (bytes, slot) = begin_exchange(&second);
    assert_eq!(slot, 11);
    assert_eq!(bytes, b"*2\r\n$3\r\nget\r\n$1\r\nx\r\n".to_vec());

    assert!(mb.take_next().is_none());
}

#[test]
fn reply_reduction() {
    assert_eq!(fetch_reply(&bulk(b"bar")), Ok(Some(b"bar".to_vec())));
    assert_eq!(fetch_reply(&Frame::Null), Ok(None));
    assert_eq!(
        fetch_reply(&Frame::Simple(b"OK".to_vec())),
        Err(WireError::Unsupported)
    );
    assert_eq!(store_reply(&Frame::Simple(b"OK".to_vec())), Ok(()));
    assert_eq!(store_reply(&Frame::Null), Err(WireError::Unsupported));
    assert_eq!(
        store_reply(&Frame::Simple(b"KO".to_vec())),
        Err(WireError::Unsupported)
    );
}

#[test]
fn full_exchange_between_client_and_server() {
    // Client side builds the request bytes; server side decodes, serves, and
    // answers; client side reduces the reply.
    let mut db = KvStore::new();
    let mut server_rx = mini_kv::connection::FrameDecoder::new();
    let mut client_rx = mini_kv::connection::FrameDecoder::new();

    for (cmd, expect) in [
        (Command::Store { key: b"foo".to_vec(), value: b"bar".to_vec() }, None),
        (Command::Fetch { key: b"foo".to_vec() }, Some(Some(b"bar".to_vec()))),
        (Command::Fetch { key: b"missing".to_vec() }, Some(None)),
    ] {
        let (request, _slot) = begin_exchange(&Pending { cmd: cmd, slot: 0 });
        server_rx.feed(&request);
        let frame = server_rx.try_frame().unwrap().unwrap();
        let decoded = Command::from_frame(&frame).unwrap();
        let response = db.apply(&decoded);
        let reply_bytes = mini_kv::connection::encode_response(&response).unwrap();
        client_rx.feed(&reply_bytes);
        let reply = client_rx.try_frame().unwrap().unwrap();
        match expect {
            None => assert_eq!(store_reply(&reply), Ok(())),
            Some(want) => assert_eq!(fetch_reply(&reply), Ok(want)),
        }
    }
}
