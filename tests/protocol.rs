use redis::config::{Config, ServerRole};
use redis::connection::{serve_frame, Progress};
use redis::data_types::{read_next_data_mandatory, read_next_data_optional, ArrayStack, RESPType};
use redis::store::{InMemStore, Store};
use redis::util::{read_size, read_until_line_break, consume_line_break, ByteReader, RespError};

fn serve_all(input: &[u8], store: &mut InMemStore, config: &Config, stack: &mut ArrayStack) -> (Vec<u8>, Vec<Progress>) {
    let mut reader = ByteReader::new(input.to_vec());
    let mut out: Vec<u8> = Vec::new();
    let mut steps = Vec::new();
    loop {
        let p = serve_frame(&mut reader, &mut out, stack, store, config);
        steps.push(p);
        if p != Progress::Done {
            break;
        }
    }
    (out, steps)
}

fn run(input: &[u8], store: &mut InMemStore, config: &Config) -> Vec<u8> {
    let mut stack = ArrayStack::new();
    let (out, steps) = serve_all(input, store, config, &mut stack);
    assert_eq!(*steps.last().unwrap(), Progress::NeedMore);
    assert!(!stack.expects_more());
    out
}

fn primary() -> Config {
    Config::default()
}

#[test]
fn ping_replies_pong() {
    let mut store = InMemStore::new();
    assert_eq!(run(b"*1\r\n$4\r\nPING\r\n", &mut store, &primary()), b"+PONG\r\n".to_vec());
}

#[test]
fn echo_replies_payload() {
    let mut store = InMemStore::new();
    assert_eq!(
        run(b"*2\r\n$4\r\nECHO\r\n$5\r\nhello\r\n", &mut store, &primary()),
        b"$5\r\nhello\r\n".to_vec()
    );
}

#[test]
fn set_then_get() {
    let mut store = InMemStore::new();
    let config = primary();
    assert_eq!(run(b"*3\r\n$3\r\nSET\r\n$3\r\nfoo\r\n$3\r\nbar\r\n", &mut store, &config), b"+OK\r\n".to_vec());
    assert_eq!(run(b"*2\r\n$3\r\nGET\r\n$3\r\nfoo\r\n", &mut store, &config), b"$3\r\nbar\r\n".to_vec());
}

#[test]
fn set_with_px_then_get_within_ttl() {
    let mut store = InMemStore::new();
    let config = primary();
    assert_eq!(
        run(b"*5\r\n$3\r\nSET\r\n$1\r\nk\r\n$1\r\nv\r\n$2\r\nPX\r\n$3\r\n100\r\n", &mut store, &config),
        b"+OK\r\n".to_vec()
    );
    assert_eq!(run(b"*2\r\n$3\r\nGET\r\n$1\r\nk\r\n", &mut store, &config), b"$1\r\nv\r\n".to_vec());
}

#[test]
fn set_with_px_expires_passively() {
    let mut store = InMemStore::new();
    store.set_expiring_at(b"k".to_vec(), b"v".to_vec(), 1_000 + 100);
    assert_eq!(store.get_at(&b"k".to_vec(), 1_000 + 50), Some(b"v".to_vec()));
    assert_eq!(store.get_at(&b"k".to_vec(), 1_000 + 99), Some(b"v".to_vec()));
    assert_eq!(store.get_at(&b"k".to_vec(), 1_000 + 100), None);
    assert_eq!(store.get_at(&b"k".to_vec(), 1_000 + 150), None);
}

#[test]
fn get_absent_is_null_bulk() {
    let mut store = InMemStore::new();
    let out = run(b"*2\r\n$3\r\nGET\r\n$7\r\nmissing\r\n", &mut store, &primary());
    assert_eq!(out, b"$-1\r\n".to_vec());
    assert_eq!(out.len(), 5);
}

#[test]
fn info_replication_as_primary() {
    let mut store = InMemStore::new();
    let config = Config {
        port: 6379,
        role: ServerRole::Main { id: String::from("8371b4fb1155b71f4a04d3e1bc3e18c4a990aeeb") },
    };
    let out = run(b"*2\r\n$4\r\nINFO\r\n$11\r\nreplication\r\n", &mut store, &config);
    assert_eq!(
        out,
        b"$89\r\nrole:master\r\nmaster_replid:8371b4fb1155b71f4a04d3e1bc3e18c4a990aeeb\r\nmaster_repl_offset:0\r\n".to_vec()
    );
}

#[test]
fn info_as_replica() {
    let mut store = InMemStore::new();
    let config = Config { port: 6380, role: ServerRole::Replica { main_addr: String::from("localhost 6379") } };
    assert_eq!(run(b"*1\r\n$4\r\nINFO\r\n", &mut store, &config), b"$10\r\nrole:slave\r\n".to_vec());
}

#[test]
fn info_unknown_section_is_rejected() {
    let mut store = InMemStore::new();
    let mut stack = ArrayStack::new();
    let (out, steps) = serve_all(b"*2\r\n$4\r\nINFO\r\n$6\r\nserver\r\n", &mut store, &primary(), &mut stack);
    assert!(out.is_empty());
    assert_eq!(*steps.last().unwrap(), Progress::Failed(RespError::ProtocolSemantics));
}

#[test]
fn replconf_drains_pairs_and_replies_ok() {
    let mut store = InMemStore::new();
    assert_eq!(
        run(b"*3\r\n$8\r\nREPLCONF\r\n$14\r\nlistening-port\r\n$4\r\n6380\r\n", &mut store, &primary()),
        b"+OK\r\n".to_vec()
    );
}

#[test]
fn psync_sends_fullresync_and_snapshot() {
    let mut store = InMemStore::new();
    let out = run(b"*3\r\n$5\r\nPSYNC\r\n$1\r\n?\r\n$2\r\n-1\r\n", &mut store, &primary());
    let head = b"+FULLRESYNC 8371b4fb1155b71f4a04d3e1bc3e18c4a990aeeb 0\r\n$88\r\n";
    assert_eq!(&out[..head.len()], &head[..]);
    assert_eq!(out.len(), head.len() + 88);
    assert_eq!(&out[head.len()..head.len() + 9], b"REDIS0011");
    assert_eq!(*out.last().unwrap(), 0xa2);
}

#[test]
fn commands_and_keywords_ignore_case() {
    let mut store = InMemStore::new();
    let config = primary();
    assert_eq!(run(b"*1\r\n$4\r\npInG\r\n", &mut store, &config), b"+PONG\r\n".to_vec());
    assert_eq!(
        run(b"*5\r\n$3\r\nsEt\r\n$1\r\nk\r\n$1\r\nv\r\n$2\r\npx\r\n$5\r\n60000\r\n", &mut store, &config),
        b"+OK\r\n".to_vec()
    );
    assert_eq!(
        run(b"*5\r\n$3\r\nset\r\n$1\r\nj\r\n$1\r\nw\r\n$2\r\neX\r\n$2\r\n60\r\n", &mut store, &config),
        b"+OK\r\n".to_vec()
    );
    assert_eq!(run(b"*2\r\n$3\r\nget\r\n$1\r\nk\r\n", &mut store, &config), b"$1\r\nv\r\n".to_vec());
    assert_eq!(run(b"*2\r\n$3\r\nGeT\r\n$1\r\nj\r\n", &mut store, &config), b"$1\r\nw\r\n".to_vec());
}

#[test]
fn pipelined_commands_leave_cursor_empty() {
    let mut store = InMemStore::new();
    let out = run(
        b"*1\r\n$4\r\nPING\r\n*3\r\n$3\r\nSET\r\n$1\r\na\r\n$1\r\n1\r\n*2\r\n$3\r\nGET\r\n$1\r\na\r\n",
        &mut store,
        &primary(),
    );
    assert_eq!(out, b"+PONG\r\n+OK\r\n$1\r\n1\r\n".to_vec());
}

#[test]
fn cursor_empty_after_each_command() {
    let mut store = InMemStore::new();
    let config = primary();
    let mut stack = ArrayStack::new();
    let mut reader = ByteReader::new(b"*2\r\n$4\r\nECHO\r\n$2\r\nhi\r\n".to_vec());
    let mut out = Vec::new();
    assert_eq!(serve_frame(&mut reader, &mut out, &mut stack, &mut store, &config), Progress::Done);
    assert!(stack.expects_more());
    assert_eq!(serve_frame(&mut reader, &mut out, &mut stack, &mut store, &config), Progress::Done);
    assert!(!stack.expects_more());
    assert_eq!(stack.decrement(), Err(RespError::ProtocolSemantics));
}

#[test]
fn incomplete_command_changes_nothing() {
    let mut store = InMemStore::new();
    let config = primary();
    let mut stack = ArrayStack::new();
    let mut reader = ByteReader::new(b"*3\r\n$3\r\nSET\r\n$1\r\nk\r\n$1\r\n".to_vec());
    let mut out = Vec::new();
    assert_eq!(serve_frame(&mut reader, &mut out, &mut stack, &mut store, &config), Progress::Done);
    assert_eq!(serve_frame(&mut reader, &mut out, &mut stack, &mut store, &config), Progress::NeedMore);
    assert!(out.is_empty());
    assert_eq!(stack.decrement(), Ok(2));
    assert_eq!(store.get(&b"k".to_vec()), None);
}

#[test]
fn unknown_command_fails() {
    let mut store = InMemStore::new();
    let mut stack = ArrayStack::new();
    let (out, steps) = serve_all(b"*1\r\n$7\r\nCOMMAND\r\n", &mut store, &primary(), &mut stack);
    assert!(out.is_empty());
    assert_eq!(*steps.last().unwrap(), Progress::Failed(RespError::UnsupportedCommand));
}

#[test]
fn wrong_argument_count_fails() {
    let mut store = InMemStore::new();
    let mut stack = ArrayStack::new();
    let (_, steps) = serve_all(b"*2\r\n$4\r\nPING\r\n$1\r\nx\r\n", &mut store, &primary(), &mut stack);
    assert_eq!(*steps.last().unwrap(), Progress::Failed(RespError::ProtocolSemantics));
    let mut stack = ArrayStack::new();
    let (_, steps) = serve_all(b"*4\r\n$3\r\nSET\r\n$1\r\nk\r\n$1\r\nv\r\n$2\r\nPX\r\n", &mut store, &primary(), &mut stack);
    assert_eq!(steps[1], Progress::Failed(RespError::ProtocolSemantics));
}

#[test]
fn set_bad_unit_or_amount_fails() {
    let mut store = InMemStore::new();
    let config = primary();
    for input in [
        &b"*5\r\n$3\r\nSET\r\n$1\r\nk\r\n$1\r\nv\r\n$2\r\nXX\r\n$3\r\n100\r\n"[..],
        &b"*5\r\n$3\r\nSET\r\n$1\r\nk\r\n$1\r\nv\r\n$2\r\nPX\r\n$3\r\n1x0\r\n"[..],
        &b"*5\r\n$3\r\nSET\r\n$1\r\nk\r\n$1\r\nv\r\n$2\r\nPX\r\n$10\r\n4294967296\r\n"[..],
        &b"*5\r\n$3\r\nSET\r\n$1\r\nk\r\n$1\r\nv\r\n$2\r\nEX\r\n$7\r\n4294968\r\n"[..],
    ] {
        let mut stack = ArrayStack::new();
        let (out, steps) = serve_all(input, &mut store, &config, &mut stack);
        assert!(out.is_empty());
        assert_eq!(*steps.last().unwrap(), Progress::Failed(RespError::ProtocolSemantics));
    }
    assert_eq!(store.get(&b"k".to_vec()), None);
}

#[test]
fn echo_size_mismatch_is_malformed() {
    let mut store = InMemStore::new();
    let mut stack = ArrayStack::new();
    let (out, steps) = serve_all(b"*2\r\n$4\r\nECHO\r\n$3\r\nhello\r\n", &mut store, &primary(), &mut stack);
    assert!(out.is_empty());
    assert_eq!(*steps.last().unwrap(), Progress::Failed(RespError::Malformed));
}

#[test]
fn empty_array_opens_nothing() {
    let mut stack = ArrayStack::new();
    stack.start_new_array(0);
    assert!(!stack.expects_more());
    stack.start_new_array(2);
    assert_eq!(stack.decrement(), Ok(1));
    assert!(stack.expects_more());
    assert_eq!(stack.decrement(), Ok(0));
    assert!(!stack.expects_more());
}

#[test]
fn frames_decode_in_sequence() {
    let mut reader = ByteReader::new(b"*3\r\n$12\r\n+hello there\r\n".to_vec());
    assert!(matches!(read_next_data_mandatory(&mut reader), Some(RESPType::Array { size: 3 })));
    assert!(matches!(read_next_data_mandatory(&mut reader), Some(RESPType::BulkString { size: 12 })));
    match read_next_data_mandatory(&mut reader) {
        Some(RESPType::SimpleString { value }) => assert_eq!(value, b"hello there".to_vec()),
        other => panic!("unexpected {:?}", other),
    }
    assert_eq!(reader.remaining(), 0);
    assert!(read_next_data_optional(&mut reader).is_none());
    assert!(matches!(
        read_next_data_mandatory(&mut reader),
        Some(RESPType::Error { error: RespError::Incomplete })
    ));
}

#[test]
fn unsupported_type_byte_is_an_error_frame() {
    let mut reader = ByteReader::new(b":12\r\n".to_vec());
    assert!(matches!(
        read_next_data_optional(&mut reader),
        Some(RESPType::Error { error: RespError::Malformed })
    ));
}

#[test]
fn size_parsing() {
    let mut reader = ByteReader::new(b"123456789\r\n".to_vec());
    assert_eq!(read_size(&mut reader), Ok(123456789));
    let mut reader = ByteReader::new(b"1234567890\r\n".to_vec());
    assert_eq!(read_size(&mut reader), Err(RespError::Malformed));
    let mut reader = ByteReader::new(b"12a\r\n".to_vec());
    assert_eq!(read_size(&mut reader), Err(RespError::Malformed));
    let mut reader = ByteReader::new(b"\r\n".to_vec());
    assert_eq!(read_size(&mut reader), Err(RespError::Malformed));
    let mut reader = ByteReader::new(b"12".to_vec());
    assert_eq!(read_size(&mut reader), Err(RespError::Incomplete));
    let mut reader = ByteReader::new(b"0\r\nrest".to_vec());
    assert_eq!(read_size(&mut reader), Ok(0));
    assert_eq!(reader.remaining(), 4);
}

#[test]
fn line_reading() {
    let mut reader = ByteReader::new(b"ab\rc\r\nz".to_vec());
    assert_eq!(read_until_line_break(&mut reader, 0), Ok(b"ab\rc".to_vec()));
    assert_eq!(reader.remaining(), 1);
    let mut reader = ByteReader::new(b"abcd\r\n".to_vec());
    assert_eq!(read_until_line_break(&mut reader, 5), Ok(b"abcd".to_vec()));
    let mut reader = ByteReader::new(b"abcde\r\n".to_vec());
    assert_eq!(read_until_line_break(&mut reader, 5), Err(RespError::Malformed));
    let mut reader = ByteReader::new(b"\r\n".to_vec());
    assert_eq!(consume_line_break(&mut reader), Ok(()));
    let mut reader = ByteReader::new(b"\n\r".to_vec());
    assert_eq!(consume_line_break(&mut reader), Err(RespError::Malformed));
    let mut reader = ByteReader::new(b"\r".to_vec());
    assert_eq!(consume_line_break(&mut reader), Err(RespError::Incomplete));
}

#[test]
fn echo_declared_size_larger_than_payload_is_malformed() {
    let mut store = InMemStore::new();
    let mut stack = ArrayStack::new();
    let (out, steps) = serve_all(b"*2\r\n$4\r\nECHO\r\n$5\r\nhi\r\n*1\r\n$4\r\nPING\r\n", &mut store, &primary(), &mut stack);
    assert!(out.is_empty());
    assert_eq!(*steps.last().unwrap(), Progress::Failed(RespError::Malformed));
}

#[test]
fn echo_waits_for_its_line_end() {
    let mut store = InMemStore::new();
    let config = primary();
    let mut stack = ArrayStack::new();
    let mut reader = ByteReader::new(b"*2\r\n$4\r\nECHO\r\n$5\r\nhel".to_vec());
    let mut out = Vec::new();
    assert_eq!(serve_frame(&mut reader, &mut out, &mut stack, &mut store, &config), Progress::Done);
    assert_eq!(serve_frame(&mut reader, &mut out, &mut stack, &mut store, &config), Progress::NeedMore);
    assert!(out.is_empty());
    assert!(stack.expects_more());
}

#[test]
fn name_outside_array_fails() {
    let mut store = InMemStore::new();
    let mut stack = ArrayStack::new();
    let (out, steps) = serve_all(b"$4\r\nPING\r\n", &mut store, &primary(), &mut stack);
    assert!(out.is_empty());
    assert_eq!(steps, vec![Progress::Failed(RespError::ProtocolSemantics)]);
}

#[test]
fn simple_string_frame_fails_without_output() {
    let mut store = InMemStore::new();
    let mut stack = ArrayStack::new();
    let (out, steps) = serve_all(b"+PING\r\n", &mut store, &primary(), &mut stack);
    assert!(out.is_empty());
    assert_eq!(steps, vec![Progress::Failed(RespError::Malformed)]);
}
