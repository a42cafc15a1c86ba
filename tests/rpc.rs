use addrindexrs::errors::Error;
use addrindexrs::rpc::{hash_from_value, is_tls_handshake, parse_method, Method};

#[test]
fn tls_handshake_is_detected() {
    assert!(is_tls_handshake(&[0x16, 0x03, 0x01, 0x02, 0x00]));
    assert!(!is_tls_handshake(b"{\"id\": 1}\n"));
    assert!(!is_tls_handshake(&[0x16, 0x03]));
}

#[test]
fn script_hash_parameter_is_read_in_display_order() {
    let hex = "0100000000000000000000000000000000000000000000000000000000000002";
    let h = hash_from_value(Some(hex)).unwrap();
    assert_eq!(h[0], 0x02);
    assert_eq!(h[31], 0x01);
    let upper = "AB00000000000000000000000000000000000000000000000000000000000000";
    assert_eq!(hash_from_value(Some(upper)).unwrap()[31], 0xab);
    assert_eq!(hash_from_value(None), Err(Error::BadScriptHash));
    assert_eq!(hash_from_value(Some("0g")), Err(Error::BadScriptHash));
    assert_eq!(hash_from_value(Some("00")), Err(Error::BadScriptHash));
}

#[test]
fn methods_are_parsed_by_name() {
    assert_eq!(parse_method("server.ping"), Some(Method::Ping));
    assert_eq!(parse_method("server.version"), Some(Method::Version));
    assert_eq!(parse_method("blockchain.scripthash.get_utxos"), Some(Method::GetUtxos));
    assert_eq!(parse_method("blockchain.scripthash.get_oldest_tx"), Some(Method::GetOldestTx));
    assert_eq!(parse_method("blockchain.headers.subscribe"), Some(Method::HeadersSubscribe));
    assert_eq!(parse_method("server.pong"), None);
    assert_eq!(Method::GetHistory.name(), "blockchain.scripthash.get_history");
}
