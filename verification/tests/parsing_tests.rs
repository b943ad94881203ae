use etcd::agent::{payload_length, payload_length_valid, MAX_PAYLOAD};
use etcd::etcd::{service_infos, service_key, services_prefix, SERVICE_LEASE_TTL};
use etcd::operation::Operation;
use etcd::server::{default_cluster_conf, parse_cluster_conf, ConfError};
use etcd::text::{is_whitespace_char, parse_u64_exec, split_exec, u64_to_decimal};

#[test]
fn operation_parses_three_words() {
    let op = Operation::new(&b"Insert key value".to_vec()).ok().unwrap();
    assert_eq!(op.serialize_as_raw(), b"Insert key value".to_vec());
    let up = Operation::new(&b"Update k v".to_vec()).ok().unwrap();
    assert_eq!(up.serialize_as_raw(), b"Update k v".to_vec());
    let del = Operation::new(&b"Delete k v".to_vec()).ok().unwrap();
    assert_eq!(del.serialize_as_raw(), b"Delete k v".to_vec());
}

#[test]
fn operation_errors() {
    let err = |raw: &[u8]| Operation::new(&raw.to_vec()).err().unwrap();
    assert_eq!(err(b"Insert key"), "Invalid number of arguments");
    assert_eq!(err(b"Insert a b c"), "Invalid number of arguments");
    assert_eq!(err(b"Put key value"), "Invalid command");
    assert_eq!(err(b"  Insert"), "Invalid key");
    assert_eq!(err(b" Foo "), "Invalid command");
    assert_eq!(err(b"Insert  key"), "Invalid value");
    assert_eq!(err(b"Insert  "), "Invalid key");
    assert_eq!(err(b"insert key value"), "Invalid command");
}

#[test]
fn operation_splits_on_any_white_space() {
    let op = Operation::new(&"Insert a\tb c".as_bytes().to_vec()).ok().unwrap();
    assert_eq!(op.serialize_as_raw(), b"Insert a b".to_vec());
    let op2 = Operation::new(&"Delete é\u{3000}x y".as_bytes().to_vec()).ok().unwrap();
    assert_eq!(op2.serialize_as_raw(), "Delete é x".as_bytes().to_vec());
}

#[test]
fn operation_round_trip() {
    let raw = "Update клю́ч значение".as_bytes().to_vec();
    let op = Operation::new(&raw).ok().unwrap();
    let again = Operation::new(&op.serialize_as_raw()).ok().unwrap();
    assert_eq!(again.serialize_as_raw(), raw);
}

#[test]
fn whitespace_classes() {
    for c in [' ', '\t', '\n', '\u{0b}', '\u{0c}', '\r', '\u{85}', '\u{a0}', '\u{1680}', '\u{2000}', '\u{200a}', '\u{2028}', '\u{2029}', '\u{202f}', '\u{205f}', '\u{3000}'] {
        assert!(is_whitespace_char(c), "{:?}", c);
        assert_eq!(is_whitespace_char(c), c.is_whitespace());
    }
    for c in ['a', '0', '\u{200b}', '\u{180e}', '_', 'é'] {
        assert!(!is_whitespace_char(c));
        assert_eq!(is_whitespace_char(c), c.is_whitespace());
    }
}

#[test]
fn decimal_numerals() {
    assert_eq!(u64_to_decimal(0), "0");
    assert_eq!(u64_to_decimal(7), "7");
    assert_eq!(u64_to_decimal(10), "10");
    assert_eq!(u64_to_decimal(1234567890), "1234567890");
    assert_eq!(u64_to_decimal(u64::MAX), u64::MAX.to_string());
}

#[test]
fn reading_numbers() {
    assert_eq!(parse_u64_exec("0"), Some(0));
    assert_eq!(parse_u64_exec("42"), Some(42));
    assert_eq!(parse_u64_exec("+42"), Some(42));
    assert_eq!(parse_u64_exec("007"), Some(7));
    assert_eq!(parse_u64_exec("18446744073709551615"), Some(u64::MAX));
    assert_eq!(parse_u64_exec("18446744073709551616"), None);
    assert_eq!(parse_u64_exec("99999999999999999999"), None);
    assert_eq!(parse_u64_exec(""), None);
    assert_eq!(parse_u64_exec("+"), None);
    assert_eq!(parse_u64_exec("-1"), None);
    assert_eq!(parse_u64_exec("1a"), None);
    assert_eq!(parse_u64_exec(" 1"), None);
    for s in ["0", "42", "+42", "", "+", "-1", "1a", "18446744073709551616"] {
        assert_eq!(parse_u64_exec(s), s.parse::<u64>().ok());
    }
}

#[test]
fn splitting() {
    assert_eq!(split_exec("a,b,,c", ','), vec!["a", "b", "", "c"]);
    assert_eq!(split_exec("", ','), vec![""]);
    assert_eq!(split_exec(",", ','), vec!["", ""]);
    assert_eq!(split_exec("abc", ','), vec!["abc"]);
}

#[test]
fn cluster_configuration() {
    let nodes = parse_cluster_conf("1=127.0.0.1:2380,2=127.0.0.1:2381").unwrap();
    assert_eq!(nodes.len(), 2);
    assert_eq!(nodes[0].node_uid, 1);
    assert_eq!(nodes[0].addr, "127.0.0.1:2380");
    assert_eq!(nodes[1].node_uid, 2);
    assert_eq!(nodes[1].addr, "127.0.0.1:2381");
    let skipped = parse_cluster_conf("3=x,junk,4=a=b,5=").unwrap();
    assert_eq!(skipped.len(), 2);
    assert_eq!(skipped[0].node_uid, 3);
    assert_eq!(skipped[1].node_uid, 5);
    assert_eq!(skipped[1].addr, "");
    assert_eq!(parse_cluster_conf("x=1").err(), Some(ConfError::InvalidNodeId));
    assert_eq!(parse_cluster_conf("1=a,=b").err(), Some(ConfError::InvalidNodeId));
    assert!(parse_cluster_conf("").unwrap().is_empty());
}

#[test]
fn default_configuration_lists_itself() {
    let conf = default_cluster_conf(1, "127.0.0.1:2380");
    assert_eq!(conf, "1=127.0.0.1:2380");
    let nodes = parse_cluster_conf(&conf).unwrap();
    assert_eq!(nodes.len(), 1);
    assert_eq!(nodes[0].node_uid, 1);
    assert_eq!(nodes[0].addr, "127.0.0.1:2380");
}

#[test]
fn frame_header_length() {
    assert_eq!(payload_length(&vec![1, 0, 0, 0, 0, 0, 0, 0]), 1);
    assert_eq!(payload_length(&vec![0, 4, 0, 0, 0, 0, 0, 0]), 1024);
    assert_eq!(payload_length(&vec![0x78, 0x56, 0x34, 0x12, 0, 0, 0, 0x80]), 0x8000_0000_1234_5678);
    assert_eq!(payload_length(&vec![255; 8]), u64::MAX);
    let h = 777u64.to_le_bytes().to_vec();
    assert_eq!(payload_length(&h), 777);
    assert!(!payload_length_valid(0));
    assert!(payload_length_valid(1));
    assert!(payload_length_valid(MAX_PAYLOAD));
    assert!(!payload_length_valid(1025));
}

#[test]
fn service_keys() {
    assert_eq!(service_key("web"), "/services/web/info");
    assert_eq!(services_prefix(), "/services/");
    assert_eq!(SERVICE_LEASE_TTL, 10);
}

#[test]
fn service_infos_decode_stored_values() {
    let values = vec![b"10.0.0.1:8080".to_vec(), Vec::new(), "caf\u{e9}".as_bytes().to_vec()];
    let infos = service_infos(&values);
    assert_eq!(infos, vec!["10.0.0.1:8080".to_string(), String::new(), "caf\u{e9}".to_string()]);
}

#[test]
fn service_infos_replace_invalid_bytes() {
    let values = vec![vec![b'a', 0xff, b'b']];
    assert_eq!(service_infos(&values), vec!["a\u{fffd}b".to_string()]);
}
