use redis::cmds::{hex_to_bytes, parse_u32, EMPTY_RDB, EMPTY_RDB_HEX};
use redis::config::{parse_args, ArgError, Config, ServerRole};
use redis::handshake::{assert_response, handshake_advance, handshake_request, receive_response, HandshakeState};
use redis::store::{InMemStore, Store};
use redis::util::{ByteReader, RespError};

#[test]
fn later_write_wins() {
    let mut store = InMemStore::new();
    store.set(b"k".to_vec(), b"v1".to_vec());
    store.set(b"k".to_vec(), b"v2".to_vec());
    assert_eq!(store.get(&b"k".to_vec()), Some(b"v2".to_vec()));
    store.set_expiring_at(b"k".to_vec(), b"v3".to_vec(), 10);
    assert_eq!(store.get_at(&b"k".to_vec(), 9), Some(b"v3".to_vec()));
    assert_eq!(store.get_at(&b"k".to_vec(), 10), None);
    store.set(b"k".to_vec(), b"v4".to_vec());
    assert_eq!(store.get_at(&b"k".to_vec(), u128::MAX), Some(b"v4".to_vec()));
}

#[test]
fn expiring_set_reads_back_now() {
    let mut store = InMemStore::new();
    store.set_expiring(b"k".to_vec(), b"v".to_vec(), 60_000);
    assert_eq!(store.get(&b"k".to_vec()), Some(b"v".to_vec()));
    store.set_expiring(b"gone".to_vec(), b"v".to_vec(), 0);
    assert_eq!(store.get(&b"gone".to_vec()), None);
}

#[test]
fn keys_are_kept_apart() {
    let mut store = InMemStore::new();
    store.set(b"a".to_vec(), b"1".to_vec());
    store.set(b"ab".to_vec(), b"2".to_vec());
    store.set(Vec::new(), b"3".to_vec());
    assert_eq!(store.get(&b"a".to_vec()), Some(b"1".to_vec()));
    assert_eq!(store.get(&b"ab".to_vec()), Some(b"2".to_vec()));
    assert_eq!(store.get(&Vec::new()), Some(b"3".to_vec()));
    assert_eq!(store.get(&b"b".to_vec()), None);
}

#[test]
fn hex_decoding() {
    assert_eq!(hex_to_bytes("00ffA0"), Ok(vec![0, 255, 160]));
    assert_eq!(hex_to_bytes(""), Ok(vec![]));
    assert_eq!(hex_to_bytes("abc"), Err(RespError::Malformed));
    assert_eq!(hex_to_bytes("zz"), Err(RespError::Malformed));
    let rdb = hex_to_bytes(EMPTY_RDB_HEX).unwrap();
    assert_eq!(rdb.len(), 88);
    assert_eq!(rdb, EMPTY_RDB.to_vec());
    assert_eq!(&rdb[..5], b"REDIS");
}

#[test]
fn u32_parsing() {
    assert_eq!(parse_u32(b"4294967295"), Some(4294967295));
    assert_eq!(parse_u32(b"4294967296"), None);
    assert_eq!(parse_u32(b"007"), Some(7));
    assert_eq!(parse_u32(b""), None);
    assert_eq!(parse_u32(b"+7"), None);
}

#[test]
fn default_config_is_primary() {
    let config = Config::default();
    assert_eq!(config.port, 6379);
    match config.role {
        ServerRole::Main { id } => assert_eq!(id, "8371b4fb1155b71f4a04d3e1bc3e18c4a990aeeb"),
        ServerRole::Replica { .. } => panic!("expected a primary"),
    }
}

#[test]
fn handshake_happy_path() {
    let port: u16 = 6380;
    let replies: [&[u8]; 4] = [b"+PONG\r\n", b"+OK\r\n", b"+OK\r\n", b"+FULLRESYNC 8371b4fb1155b71f4a04d3e1bc3e18c4a990aeeb 0\r\n"];
    let requests: [&[u8]; 4] = [
        b"*1\r\n$4\r\nPING\r\n",
        b"*3\r\n$8\r\nREPLCONF\r\n$14\r\nlistening-port\r\n$4\r\n6380\r\n",
        b"*3\r\n$8\r\nREPLCONF\r\n$4\r\ncapa\r\n$6\r\npsync2\r\n",
        b"*3\r\n$5\r\nPSYNC\r\n$1\r\n?\r\n$2\r\n-1\r\n",
    ];
    let mut state = HandshakeState::Init;
    for i in 0..4 {
        assert_eq!(handshake_request(state, port), requests[i].to_vec());
        let mut reader = ByteReader::new(replies[i].to_vec());
        let reply = receive_response(&mut reader).unwrap();
        if i == 3 {
            assert!(reply.starts_with(b"FULLRESYNC "));
        }
        state = handshake_advance(state, &reply).unwrap();
    }
    assert_eq!(state, HandshakeState::Done);
    assert_eq!(handshake_request(state, port), Vec::<u8>::new());
}

#[test]
fn handshake_port_of_five_digits() {
    assert_eq!(
        handshake_request(HandshakeState::Port, 16379),
        b"*3\r\n$8\r\nREPLCONF\r\n$14\r\nlistening-port\r\n$5\r\n16379\r\n".to_vec()
    );
}

#[test]
fn handshake_mismatch() {
    assert_eq!(handshake_advance(HandshakeState::Init, &b"OK".to_vec()), Err(RespError::HandshakeMismatch));
    assert_eq!(handshake_advance(HandshakeState::Capa, &b"PONG".to_vec()), Err(RespError::HandshakeMismatch));
    let mut reader = ByteReader::new(b"+NOPE\r\n".to_vec());
    assert_eq!(assert_response(&mut reader, b"PONG"), Err(RespError::HandshakeMismatch));
    let mut reader = ByteReader::new(b"+PONG\r\n".to_vec());
    assert_eq!(assert_response(&mut reader, b"PONG"), Ok(()));
    let mut reader = ByteReader::new(b"$4\r\nPONG\r\n".to_vec());
    assert_eq!(receive_response(&mut reader), Err(RespError::Malformed));
    let mut reader = ByteReader::new(b"+PON".to_vec());
    assert_eq!(receive_response(&mut reader), Err(RespError::Incomplete));
}

fn args(list: &[&str]) -> Vec<String> {
    list.iter().map(|a| a.to_string()).collect()
}

#[test]
fn arguments_set_port_and_role() {
    let config = parse_args(&args(&[])).unwrap();
    assert_eq!(config.port, 6379);
    assert!(matches!(config.role, ServerRole::Main { .. }));
    let config = parse_args(&args(&["--port", "6380", "--replicaof", "localhost 6379"])).unwrap();
    assert_eq!(config.port, 6380);
    match config.role {
        ServerRole::Replica { main_addr } => assert_eq!(main_addr, "localhost 6379"),
        ServerRole::Main { .. } => panic!("expected a replica"),
    }
    let config = parse_args(&args(&["--port", "1", "2"])).unwrap();
    assert_eq!(config.port, 2);
}

#[test]
fn arguments_refused() {
    assert_eq!(parse_args(&args(&["--verbose"])).err(), Some(ArgError::UnknownFlag));
    assert_eq!(parse_args(&args(&["--port", "65536"])).err(), Some(ArgError::InvalidPort));
    assert_eq!(parse_args(&args(&["--port", "http"])).err(), Some(ArgError::InvalidPort));
    assert_eq!(parse_args(&args(&["6379"])).err(), Some(ArgError::UnexpectedValue));
    assert_eq!(parse_args(&args(&["--port", "65535"])).unwrap().port, 65535);
}
