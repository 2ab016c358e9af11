use kvs_log::codec::Command;
use kvs_log::errors::KvError;
use kvs_log::kv_log::KvStore;
use kvs_log::protocol::{
    handle_request, read_header, serialize_request, serialize_response, RequestHeader,
    ResponseCommand,
};

// A request header round-trips through its twelve-byte wire form.
#[test]
fn header_round_trip() {
    let header = RequestHeader {
        version: 1,
        keep_alive: 1,
        command_count: 2,
        body_size: 300,
        reserved: 0,
    };
    let mut bytes: Vec<u8> = Vec::new();
    kvs_log::protocol::write_header(&header, &mut bytes);
    assert_eq!(bytes.len(), 12);
    let (parsed, end) = read_header(&bytes, 0).unwrap();
    assert_eq!(end, 12);
    assert_eq!(parsed, header);
}

// Fewer than twelve bytes cannot hold a header.
#[test]
fn short_header_rejected() {
    let bytes = vec![1u8, 0, 0];
    assert_eq!(read_header(&bytes, 0).unwrap_err(), KvError::CorruptRecord);
}

// A serialized request starts with its header: version, keep-alive flag,
// big-endian command count and body size.
#[test]
fn request_layout() {
    let commands = vec![Command::Get { key: "k".to_owned() }];
    let bytes = serialize_request(&commands, true).unwrap();
    assert_eq!(&bytes[..12], &[1, 1, 0, 1, 0, 0, 0, 6, 0, 0, 0, 0]);
    assert_eq!(&bytes[12..], &[b'g', 0, 0, 0, 1, b'k']);
}

// A serialized response carries one tagged result per command; a found
// value travels behind a presence byte and a length prefix.
#[test]
fn response_layout() {
    let responses = vec![
        ResponseCommand::Put,
        ResponseCommand::Get { value: Some("v".to_owned()) },
        ResponseCommand::Get { value: None },
        ResponseCommand::Remove,
        ResponseCommand::Reset,
    ];
    let bytes = serialize_response(&responses).unwrap();
    assert_eq!(&bytes[..12], &[1, 0, 0, 5, 0, 0, 0, 12, 0, 0, 0, 0]);
    assert_eq!(
        &bytes[12..],
        &[b's', b'g', 1, 0, 0, 0, 1, b'v', b'g', 0, b'r', b'z']
    );
}

// A serialized response parses back to the same results: the parser is the
// inverse of the serializer.
#[test]
fn response_round_trip() {
    let responses = vec![
        ResponseCommand::Put,
        ResponseCommand::Get { value: Some("a value".to_owned()) },
        ResponseCommand::Get { value: None },
        ResponseCommand::Remove,
        ResponseCommand::Reset,
    ];
    let bytes = kvs_log::protocol::serialize_response(&responses).unwrap();
    let parsed = kvs_log::protocol::read_response(&bytes).unwrap();
    assert_eq!(parsed.header.command_count, 5);
    assert_eq!(parsed.commands.len(), 5);
    assert!(matches!(&parsed.commands[0], ResponseCommand::Put));
    assert!(matches!(&parsed.commands[1], ResponseCommand::Get { value: Some(v) } if v == "a value"));
    assert!(matches!(&parsed.commands[2], ResponseCommand::Get { value: None }));
    assert!(matches!(&parsed.commands[3], ResponseCommand::Remove));
    assert!(matches!(&parsed.commands[4], ResponseCommand::Reset));
}

// A response cut short, or one with trailing bytes, is rejected.
#[test]
fn response_malformed_rejected() {
    let responses = vec![ResponseCommand::Put];
    let mut bytes = kvs_log::protocol::serialize_response(&responses).unwrap();
    bytes.push(0);
    match kvs_log::protocol::read_response(&bytes) {
        Err(e) => assert_eq!(e, KvError::CorruptRecord),
        Ok(_) => panic!("trailing byte accepted"),
    }
    bytes.pop();
    bytes.pop();
    match kvs_log::protocol::read_response(&bytes) {
        Err(e) => assert_eq!(e, KvError::CorruptRecord),
        Ok(_) => panic!("truncated response accepted"),
    }
}

// A batch of commands runs against the engine in order: each `Get` sees the
// state the commands before it left behind.
#[test]
fn handle_request_runs_commands_in_order() {
    let mut store = KvStore::new();
    let commands = vec![
        Command::Put { key: "k".to_owned(), value: "v1".to_owned() },
        Command::Get { key: "k".to_owned() },
        Command::Put { key: "k".to_owned(), value: "v2".to_owned() },
        Command::Get { key: "k".to_owned() },
        Command::Remove { key: "k".to_owned() },
        Command::Get { key: "k".to_owned() },
        Command::Reset,
    ];
    let responses = handle_request(&mut store, commands).unwrap();
    assert_eq!(responses.len(), 7);
    assert!(matches!(&responses[1], ResponseCommand::Get { value: Some(v) } if v == "v1"));
    assert!(matches!(&responses[3], ResponseCommand::Get { value: Some(v) } if v == "v2"));
    assert!(matches!(&responses[5], ResponseCommand::Get { value: None }));
    assert!(matches!(&responses[6], ResponseCommand::Reset));
}
