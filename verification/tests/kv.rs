use rustbox::kv::{command_from_parts, parse_resp_array, resp_arguments, Command, Store};

fn resp(parts: &[&str]) -> Vec<u8> {
    let mut s = format!("*{}\r\n", parts.len());
    for p in parts {
        s.push_str(&format!("${}\r\n{}\r\n", p.len(), p));
    }
    s.into_bytes()
}

#[test]
fn parse_set_get_ping() {
    match parse_resp_array(&resp(&["SET", "Key", "value"])) {
        Command::SetValue(k, v) => {
            assert_eq!(k, "key");
            assert_eq!(v, "VALUE");
        },
        _ => panic!("expected SET"),
    }
    match parse_resp_array(&resp(&["get", "KEY"])) {
        Command::Get(k) => assert_eq!(k, "key"),
        _ => panic!("expected GET"),
    }
    assert!(matches!(parse_resp_array(&resp(&["ping"])), Command::Ping));
    assert!(matches!(parse_resp_array(&resp(&["PING", "extra"])), Command::Ping));
}

#[test]
fn parse_unknown_requests() {
    assert!(matches!(parse_resp_array(b""), Command::Unknown));
    assert!(matches!(parse_resp_array(b"PING\r\n"), Command::Unknown));
    assert!(matches!(parse_resp_array(&resp(&["SET", "k"])), Command::Unknown));
    assert!(matches!(parse_resp_array(&resp(&["GET"])), Command::Unknown));
    assert!(matches!(parse_resp_array(&resp(&["DEL", "k"])), Command::Unknown));
    assert!(matches!(parse_resp_array(b"*1\r\n$4\r\n"), Command::Unknown));
}

#[test]
fn lines_without_dollar_are_skipped() {
    match parse_resp_array(b"*2\nnoise\n$3\nget\n$1\nx\n") {
        Command::Get(k) => assert_eq!(k, "x"),
        _ => panic!("expected GET"),
    }
}

#[test]
fn invalid_utf8_is_replaced() {
    match parse_resp_array(b"*2\r\n$3\r\nGET\r\n$1\r\n\xff\r\n") {
        Command::Get(k) => assert_eq!(k, "\u{FFFD}"),
        _ => panic!("expected GET"),
    }
}

#[test]
fn store_set_then_get() {
    let mut store = Store::new();
    assert_eq!(store.execute(Command::Get("a".to_string())), "$-1\r\n");
    assert_eq!(store.execute(Command::SetValue("a".to_string(), "héllo".to_string())), "+OK\r\n");
    assert_eq!(store.execute(Command::Get("a".to_string())), "$6\r\nhéllo\r\n");
    assert_eq!(store.execute(Command::Get("b".to_string())), "$-1\r\n");
    assert_eq!(store.execute(Command::Ping), "+PONG\r\n");
    assert_eq!(store.execute(Command::Unknown), "-ERR unknown command\r\n");
}

#[test]
fn respond_to_raw_requests() {
    let mut store = Store::new();
    assert_eq!(store.respond(b"hello"), None);
    assert_eq!(store.respond(&resp(&["SET", "name", "bob"])), Some(b"+OK\r\n".to_vec()));
    assert_eq!(store.respond(&resp(&["GET", "NAME"])), Some(b"$3\r\nBOB\r\n".to_vec()));
    assert_eq!(store.respond(&resp(&["PING"])), Some(b"+PONG\r\n".to_vec()));
    assert_eq!(store.respond(&resp(&["NOPE"])), Some(b"-ERR unknown command\r\n".to_vec()));
    assert_eq!(store.respond(b"*0\r\n"), Some(b"-ERR unknown command\r\n".to_vec()));
}

#[test]
fn arguments_of_a_resp_array() {
    assert_eq!(resp_arguments("*2\r\n$3\r\nget\r\n$1\r\nKey\r\n"), Some(vec!["get".to_string(), "Key".to_string()]));
    assert_eq!(resp_arguments("*1\nnoise\n$2\nab\n$9"), Some(vec!["ab".to_string()]));
    assert_eq!(resp_arguments("*0\r\n"), Some(vec![]));
    assert_eq!(resp_arguments("PING\r\n"), None);
    assert_eq!(resp_arguments(""), None);
}

#[test]
fn commands_from_upper_cased_parts() {
    let parts = |xs: &[&str]| xs.iter().map(|x| x.to_string()).collect::<Vec<String>>();
    match command_from_parts(&parts(&["SET", "KEY", "VAL"])) {
        Command::SetValue(k, v) => {
            assert_eq!(k, "key");
            assert_eq!(v, "VAL");
        },
        _ => panic!("expected SET"),
    }
    assert!(matches!(command_from_parts(&parts(&["GET", "K"])), Command::Get(k) if k == "k"));
    assert!(matches!(command_from_parts(&parts(&["PING", "X", "Y"])), Command::Ping));
    assert!(matches!(command_from_parts(&parts(&["get", "k"])), Command::Unknown));
    assert!(matches!(command_from_parts(&parts(&["SET", "k"])), Command::Unknown));
    assert!(matches!(command_from_parts(&parts(&[])), Command::Unknown));
}
