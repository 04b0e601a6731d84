use room_relay::bridge::{bridge_step, channel_key, BridgeAction, BridgeEvent};
use room_relay::session::{forwarder_step, ForwarderAction, ForwarderEvent};
use room_relay::ticker::sanitize_ticker;

#[test]
fn bridge_forwards_payload_unchanged() {
    match bridge_step(BridgeEvent::BusMessage { payload: "tick 42".to_string() }) {
        BridgeAction::Forward { payload } => assert_eq!(payload, "tick 42"),
        _ => panic!("a bus message must be forwarded"),
    }
}

#[test]
fn bridge_skips_unreadable_payloads() {
    assert!(matches!(bridge_step(BridgeEvent::PayloadUnreadable), BridgeAction::Skip));
}

#[test]
fn bridge_failures_are_terminal_for_the_bridge() {
    assert!(matches!(bridge_step(BridgeEvent::ReceiveFailed), BridgeAction::Stop));
    assert!(matches!(bridge_step(BridgeEvent::FanoutClosed), BridgeAction::Stop));
}

#[test]
fn channel_key_is_the_room_name() {
    assert_eq!(channel_key(&"btc".to_string()), "btc");
}

#[test]
fn forwarder_delivers_payload_as_room_envelope() {
    let room = "btc".to_string();
    match forwarder_step(&room, ForwarderEvent::Payload { data: "hello".to_string() }) {
        ForwarderAction::Deliver { envelope } => {
            assert_eq!(envelope.room, "btc");
            assert_eq!(envelope.data, "hello");
        }
        _ => panic!("a payload must be delivered"),
    }
}

#[test]
fn forwarder_skips_lag_and_stops_on_close_or_write_failure() {
    let room = "btc".to_string();
    assert!(matches!(
        forwarder_step(&room, ForwarderEvent::Lagged { count: 7 }),
        ForwarderAction::Skip
    ));
    assert!(matches!(
        forwarder_step(&room, ForwarderEvent::ChannelClosed),
        ForwarderAction::Stop
    ));
    assert!(matches!(
        forwarder_step(&room, ForwarderEvent::WriteFailed),
        ForwarderAction::Stop
    ));
}

#[test]
fn sanitizes_tickers_for_storage_names() {
    assert_eq!(sanitize_ticker("SOL/USDC"), "sol_usdc");
    assert_eq!(sanitize_ticker("btc-perp"), "btc_perp");
    assert_eq!(sanitize_ticker("plain_ticker9"), "plain_ticker9");
    assert_eq!(sanitize_ticker(""), "");
    assert_eq!(sanitize_ticker("A B\tC"), "a_b_c");
}
