use room_relay::codec::{error_envelope, parse_client_request, server_message_to_json};
use room_relay::protocol::{ClientRequest, ServerMessage};

fn parse_ok(text: &str) -> ClientRequest {
    match parse_client_request(text) {
        Ok(req) => req,
        Err(_) => panic!("expected {:?} to parse", text),
    }
}

#[test]
fn parses_subscribe() {
    match parse_ok("{\"type\":\"SUBSCRIBE\",\"payload\":{\"room\":\"btc\"}}") {
        ClientRequest::Subscribe { payload } => assert_eq!(payload.room, "btc"),
        _ => panic!("wrong variant"),
    }
}

#[test]
fn parses_unsubscribe() {
    match parse_ok("{\"type\":\"UNSUBSCRIBE\",\"payload\":{\"room\":\"eth\"}}") {
        ClientRequest::Unsubscribe { payload } => assert_eq!(payload.room, "eth"),
        _ => panic!("wrong variant"),
    }
}

#[test]
fn parses_send_message() {
    match parse_ok("{\"type\":\"SEND_MESSAGE\",\"payload\":{\"room\":\"btc\",\"message\":\"hello\"}}") {
        ClientRequest::SendMessage { payload } => {
            assert_eq!(payload.room, "btc");
            assert_eq!(payload.message, "hello");
        }
        _ => panic!("wrong variant"),
    }
}

#[test]
fn parses_members_in_either_order() {
    match parse_ok("{\"payload\":{\"room\":\"btc\"},\"type\":\"SUBSCRIBE\"}") {
        ClientRequest::Subscribe { payload } => assert_eq!(payload.room, "btc"),
        _ => panic!("wrong variant"),
    }
    match parse_ok("{\"type\":\"SEND_MESSAGE\",\"payload\":{\"message\":\"m\",\"room\":\"r\"}}") {
        ClientRequest::SendMessage { payload } => {
            assert_eq!(payload.room, "r");
            assert_eq!(payload.message, "m");
        }
        _ => panic!("wrong variant"),
    }
}

#[test]
fn parses_with_whitespace() {
    match parse_ok(" {\n\t\"type\" : \"SUBSCRIBE\" ,\r\n \"payload\" : { \"room\" : \"btc\" } } ") {
        ClientRequest::Subscribe { payload } => assert_eq!(payload.room, "btc"),
        _ => panic!("wrong variant"),
    }
}

#[test]
fn parses_string_escapes() {
    match parse_ok(
        "{\"type\":\"SEND_MESSAGE\",\"payload\":{\"room\":\"a\\\"b\",\"message\":\"x\\n\\t\\\\y\\/z\"}}",
    ) {
        ClientRequest::SendMessage { payload } => {
            assert_eq!(payload.room, "a\"b");
            assert_eq!(payload.message, "x\n\t\\y/z");
        }
        _ => panic!("wrong variant"),
    }
}

#[test]
fn parses_unicode_escapes() {
    match parse_ok("{\"type\":\"SUBSCRIBE\",\"payload\":{\"room\":\"\\u0041\\u00e9\\u20ac\"}}") {
        ClientRequest::Subscribe { payload } => assert_eq!(payload.room, "A\u{e9}\u{20ac}"),
        _ => panic!("wrong variant"),
    }
}

#[test]
fn rejects_malformed_frames() {
    let bad = [
        "",
        "hello",
        "{",
        "{}",
        "{\"type\":\"SUBSCRIBE\"}",
        "{\"payload\":{\"room\":\"btc\"}}",
        "{\"type\":\"SUBSCRIBE\",\"payload\":{\"room\":\"btc\"}} trailing",
        "{\"type\":\"NOPE\",\"payload\":{\"room\":\"btc\"}}",
        "{\"type\":\"SUBSCRIBE\",\"payload\":{\"notroom\":\"btc\"}}",
        "{\"type\":\"SEND_MESSAGE\",\"payload\":{\"room\":\"btc\"}}",
        "{\"type\":\"SEND_MESSAGE\",\"payload\":{\"room\":\"a\",\"room\":\"b\"}}",
        "{\"type\":\"SUBSCRIBE\",\"payload\":{\"room\":\"btc\"}",
        "{\"type\":\"SUBSCRIBE\",\"payload\":{\"room\":\"btc}}",
        "{\"type\":\"SUBSCRIBE\",\"payload\":{\"room\":\"\\q\"}}",
        "{\"type\":\"SUBSCRIBE\",\"payload\":{\"room\":\"\\ud800\"}}",
        "{\"type\":\"SUBSCRIBE\",\"payload\":{\"room\":\"\\udc00\"}}",
        "{\"type\":\"SUBSCRIBE\",\"payload\":{\"room\":\"\\ud83dx\"}}",
        "{\"type\":\"SUBSCRIBE\",\"payload\":{\"room\":\"\\ud83d\\u0041\"}}",
        "{\"type\":\"SUBSCRIBE\",\"payload\":{\"room\":\"\\u12\"}}",
        "{\"type\":17,\"payload\":{\"room\":\"btc\"}}",
        "{\"type\":\"SUBSCRIBE\",\"payload\":\"btc\"}",
        "[\"type\",\"SUBSCRIBE\"]",
        "{\"type\":\"SUBSCRIBE\",\"payload\":{}}",
    ];
    for text in bad.iter() {
        assert!(parse_client_request(text).is_err(), "expected {:?} to be rejected", text);
    }
}

#[test]
fn rejects_raw_control_characters_in_strings() {
    let text = "{\"type\":\"SUBSCRIBE\",\"payload\":{\"room\":\"a\nb\"}}";
    assert!(parse_client_request(text).is_err());
}

#[test]
fn frames_server_message() {
    let msg = ServerMessage { room: "btc".to_string(), data: "hello".to_string() };
    assert_eq!(server_message_to_json(&msg), "{\"room\":\"btc\",\"data\":\"hello\"}");
}

#[test]
fn frames_server_message_with_escapes() {
    let msg = ServerMessage {
        room: "a\"b".to_string(),
        data: "line1\nline2\\end\u{1}".to_string(),
    };
    assert_eq!(
        server_message_to_json(&msg),
        "{\"room\":\"a\\\"b\",\"data\":\"line1\\nline2\\\\end\\u0001\"}"
    );
}

#[test]
fn frames_error_envelope() {
    assert_eq!(
        error_envelope("Failed to parse message"),
        "{\"error\":\"Failed to parse message\"}"
    );
}

#[test]
fn envelope_is_valid_json() {
    let msg = ServerMessage {
        room: "r\u{8}\u{c}\r\t".to_string(),
        data: "d\"\\\n\u{1f}".to_string(),
    };
    let framed = server_message_to_json(&msg);
    let value: serde_json::Value = serde_json::from_str(&framed).expect("envelope must be JSON");
    assert_eq!(value["room"].as_str().unwrap(), "r\u{8}\u{c}\r\t");
    assert_eq!(value["data"].as_str().unwrap(), "d\"\\\n\u{1f}");
}

#[test]
fn accepts_serde_encoded_requests() {
    let mut payload = serde_json::Map::new();
    payload.insert("room".to_string(), serde_json::Value::String("btc".to_string()));
    payload.insert("message".to_string(), serde_json::Value::String("hi there".to_string()));
    let mut top = serde_json::Map::new();
    top.insert("type".to_string(), serde_json::Value::String("SEND_MESSAGE".to_string()));
    top.insert("payload".to_string(), serde_json::Value::Object(payload));
    let text = serde_json::Value::Object(top).to_string();
    match parse_ok(&text) {
        ClientRequest::SendMessage { payload } => {
            assert_eq!(payload.room, "btc");
            assert_eq!(payload.message, "hi there");
        }
        _ => panic!("wrong variant"),
    }
}

#[test]
fn ignores_unknown_members() {
    match parse_ok("{\"type\":\"SUBSCRIBE\",\"payload\":{\"room\":\"btc\",\"extra\":\"x\"}}") {
        ClientRequest::Subscribe { payload } => assert_eq!(payload.room, "btc"),
        _ => panic!("wrong variant"),
    }
    match parse_ok(
        "{\"version\":\"1\",\"type\":\"SEND_MESSAGE\",\"payload\":{\"hint\":\"h\",\"message\":\"m\",\"room\":\"r\"}}",
    ) {
        ClientRequest::SendMessage { payload } => {
            assert_eq!(payload.room, "r");
            assert_eq!(payload.message, "m");
        }
        _ => panic!("wrong variant"),
    }
}

#[test]
fn rejects_duplicate_named_members() {
    assert!(parse_client_request(
        "{\"type\":\"SUBSCRIBE\",\"type\":\"SUBSCRIBE\",\"payload\":{\"room\":\"btc\"}}"
    )
    .is_err());
    assert!(parse_client_request(
        "{\"type\":\"SUBSCRIBE\",\"payload\":{\"room\":\"a\",\"room\":\"b\"}}"
    )
    .is_err());
}

#[test]
fn parses_surrogate_pair_escapes() {
    match parse_ok("{\"type\":\"SUBSCRIBE\",\"payload\":{\"room\":\"\\ud83d\\ude00ok\"}}") {
        ClientRequest::Subscribe { payload } => assert_eq!(payload.room, "\u{1f600}ok"),
        _ => panic!("wrong variant"),
    }
}
