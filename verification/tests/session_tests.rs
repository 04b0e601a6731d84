use room_relay::protocol::{ClientRequest, MessagePayload, SubscribePayload, UnsubscribePayload};
use room_relay::registry::RoomRegistry;
use room_relay::session::{Action, InboundFrame, RequestOutcome, Session};

fn subscribe(room: &str) -> ClientRequest {
    ClientRequest::Subscribe { payload: SubscribePayload { room: room.to_string() } }
}

fn unsubscribe(room: &str) -> ClientRequest {
    ClientRequest::Unsubscribe { payload: UnsubscribePayload { room: room.to_string() } }
}

fn send(room: &str, message: &str) -> ClientRequest {
    ClientRequest::SendMessage {
        payload: MessagePayload { room: room.to_string(), message: message.to_string() },
    }
}

/// Drive one subscribe through both phases, with the bus bridge start
/// succeeding.
fn subscribe_ok(session: &mut Session, reg: &mut RoomRegistry, room: &str) -> Vec<Action> {
    match session.handle_request(reg, subscribe(room)) {
        RequestOutcome::Done { actions } => actions,
        RequestOutcome::NeedsBridge { room } => session.complete_subscribe(reg, room, true),
    }
}

#[test]
fn first_subscribe_asks_for_bridge_then_attaches() {
    let mut reg = RoomRegistry::new();
    let mut session = Session::new();
    let room = match session.handle_request(&mut reg, subscribe("btc")) {
        RequestOutcome::NeedsBridge { room } => room,
        RequestOutcome::Done { .. } => panic!("a room that is not live needs a bridge first"),
    };
    assert_eq!(room, "btc");
    // Nothing stands yet: the bridge must start before the room does.
    assert!(!session.is_subscribed(&"btc".to_string()));

    let actions = session.complete_subscribe(&mut reg, room, true);
    assert_eq!(actions.len(), 2);
    assert!(matches!(&actions[0], Action::AttachBridge { room, .. } if room == "btc"));
    assert!(matches!(&actions[1], Action::StartForwarder { room, .. } if room == "btc"));
    assert!(session.is_subscribed(&"btc".to_string()));
}

#[test]
fn failed_bridge_start_fails_subscribe_and_creates_no_room() {
    let mut reg = RoomRegistry::new();
    let mut session = Session::new();
    let room = match session.handle_request(&mut reg, subscribe("btc")) {
        RequestOutcome::NeedsBridge { room } => room,
        RequestOutcome::Done { .. } => panic!("a room that is not live needs a bridge first"),
    };

    // The bus connection or subscribe failed: the subscribe fails and
    // the room is not created.
    let actions = session.complete_subscribe(&mut reg, room, false);
    assert!(actions.is_empty());
    assert!(!session.is_subscribed(&"btc".to_string()));

    // A later subscribe attempts the bridge anew.
    match session.handle_request(&mut reg, subscribe("btc")) {
        RequestOutcome::NeedsBridge { room } => {
            let actions = session.complete_subscribe(&mut reg, room, true);
            assert_eq!(actions.len(), 2);
            assert!(session.is_subscribed(&"btc".to_string()));
        }
        RequestOutcome::Done { .. } => panic!("the room must not have been created"),
    }
}

#[test]
fn double_subscribe_is_noop() {
    let mut reg = RoomRegistry::new();
    let mut session = Session::new();
    let first = subscribe_ok(&mut session, &mut reg, "btc");
    let started: usize = first
        .iter()
        .filter(|a| matches!(a, Action::StartForwarder { .. }))
        .count();
    assert_eq!(started, 1);
    match session.handle_request(&mut reg, subscribe("btc")) {
        RequestOutcome::Done { actions } => assert!(actions.is_empty()),
        RequestOutcome::NeedsBridge { .. } => panic!("a held room needs no bridge"),
    }
    assert!(session.is_subscribed(&"btc".to_string()));
}

#[test]
fn second_session_joins_existing_room() {
    let mut reg = RoomRegistry::new();
    let mut a = Session::new();
    let mut b = Session::new();
    let first = subscribe_ok(&mut a, &mut reg, "btc");
    assert_eq!(first.len(), 2);
    // The room is live now: the second subscribe needs no bridge.
    match b.handle_request(&mut reg, subscribe("btc")) {
        RequestOutcome::Done { actions } => {
            assert_eq!(actions.len(), 1);
            assert!(matches!(&actions[0], Action::StartForwarder { room, .. } if room == "btc"));
        }
        RequestOutcome::NeedsBridge { .. } => panic!("a live room needs no bridge"),
    }
}

#[test]
fn send_message_publishes_to_bus_even_unsubscribed() {
    let mut reg = RoomRegistry::new();
    let mut session = Session::new();
    match session.handle_request(&mut reg, send("btc", "hello")) {
        RequestOutcome::Done { actions } => {
            assert_eq!(actions.len(), 1);
            assert!(matches!(
                &actions[0],
                Action::PublishToBus { room, message } if room == "btc" && message == "hello"
            ));
        }
        RequestOutcome::NeedsBridge { .. } => panic!("publishing needs no bridge"),
    }
}

#[test]
fn both_subscribers_receive_published_message() {
    let mut reg = RoomRegistry::new();
    let mut a = Session::new();
    let mut b = Session::new();
    subscribe_ok(&mut a, &mut reg, "btc");
    subscribe_ok(&mut b, &mut reg, "btc");
    match a.handle_request(&mut reg, send("btc", "hello")) {
        RequestOutcome::Done { actions } => {
            assert!(matches!(&actions[0], Action::PublishToBus { .. }));
        }
        RequestOutcome::NeedsBridge { .. } => panic!("publishing needs no bridge"),
    }

    // The bus delivers the payload back to this process; each session's
    // forwarding task wraps it exactly when it holds the room.
    let to_a = a.deliver(&"btc".to_string(), &"hello".to_string()).expect("a holds btc");
    let to_b = b.deliver(&"btc".to_string(), &"hello".to_string()).expect("b holds btc");
    assert_eq!(to_a.room, "btc");
    assert_eq!(to_a.data, "hello");
    assert_eq!(to_b.room, "btc");
    assert_eq!(to_b.data, "hello");
}

#[test]
fn unsubscribed_session_receives_nothing_further() {
    let mut reg = RoomRegistry::new();
    let mut a = Session::new();
    let mut b = Session::new();
    subscribe_ok(&mut a, &mut reg, "btc");
    subscribe_ok(&mut b, &mut reg, "btc");
    match a.handle_request(&mut reg, unsubscribe("btc")) {
        RequestOutcome::Done { actions } => {
            assert_eq!(actions.len(), 1);
            assert!(matches!(&actions[0], Action::StopForwarder { room } if room == "btc"));
        }
        RequestOutcome::NeedsBridge { .. } => panic!("unsubscribing needs no bridge"),
    }

    b.handle_request(&mut reg, send("btc", "update"));
    assert!(a.deliver(&"btc".to_string(), &"update".to_string()).is_none());
    let to_b = b.deliver(&"btc".to_string(), &"update".to_string()).expect("b still holds btc");
    assert_eq!(to_b.data, "update");
}

#[test]
fn delivery_does_not_cross_rooms() {
    let mut reg = RoomRegistry::new();
    let mut a = Session::new();
    let mut b = Session::new();
    subscribe_ok(&mut a, &mut reg, "btc");
    subscribe_ok(&mut b, &mut reg, "eth");
    assert!(a.deliver(&"eth".to_string(), &"x".to_string()).is_none());
    assert!(b.deliver(&"btc".to_string(), &"x".to_string()).is_none());
}

#[test]
fn last_unsubscribe_stops_bridge_and_resubscribe_recreates() {
    let mut reg = RoomRegistry::new();
    let mut a = Session::new();
    let first = subscribe_ok(&mut a, &mut reg, "btc");
    let first_channel = match &first[0] {
        Action::AttachBridge { channel, .. } => *channel,
        _ => panic!("expected a bridge attachment"),
    };
    match a.handle_request(&mut reg, unsubscribe("btc")) {
        RequestOutcome::Done { actions } => {
            assert_eq!(actions.len(), 2);
            assert!(matches!(&actions[0], Action::StopForwarder { room } if room == "btc"));
            assert!(matches!(
                &actions[1],
                Action::StopBridge { room, channel } if room == "btc" && *channel == first_channel
            ));
        }
        RequestOutcome::NeedsBridge { .. } => panic!("unsubscribing needs no bridge"),
    }

    // The room is gone: a new subscriber re-creates room and bridge.
    let mut b = Session::new();
    let again = subscribe_ok(&mut b, &mut reg, "btc");
    assert_eq!(again.len(), 2);
    match &again[0] {
        Action::AttachBridge { room, channel } => {
            assert_eq!(room, "btc");
            assert_ne!(*channel, first_channel);
        }
        _ => panic!("re-subscribe must re-create the bridge"),
    }
}

#[test]
fn disconnect_releases_every_room_once() {
    let mut reg = RoomRegistry::new();
    let mut a = Session::new();
    let mut b = Session::new();
    subscribe_ok(&mut a, &mut reg, "btc");
    subscribe_ok(&mut a, &mut reg, "eth");
    subscribe_ok(&mut a, &mut reg, "sol");
    subscribe_ok(&mut b, &mut reg, "btc");

    let actions = a.disconnect(&mut reg);
    let stopped: usize = actions
        .iter()
        .filter(|x| matches!(x, Action::StopForwarder { .. }))
        .count();
    assert_eq!(stopped, 3);
    // btc still has one holder, so only eth and sol lose their bridges.
    let bridges: usize = actions
        .iter()
        .filter(|x| matches!(x, Action::StopBridge { .. }))
        .count();
    assert_eq!(bridges, 2);
    assert!(!a.is_subscribed(&"btc".to_string()));
    assert!(b.deliver(&"btc".to_string(), &"still".to_string()).is_some());
}

#[test]
fn malformed_frame_yields_error_envelope_and_session_continues() {
    let mut reg = RoomRegistry::new();
    let mut session = Session::new();
    let (outcome, connected) = session.handle_frame(
        &mut reg,
        InboundFrame::Text { text: "this is not a frame".to_string() },
    );
    assert!(connected);
    match outcome {
        RequestOutcome::Done { actions } => {
            assert_eq!(actions.len(), 1);
            match &actions[0] {
                Action::SendText { text } => {
                    assert_eq!(text, "{\"error\":\"Failed to parse message\"}");
                }
                _ => panic!("expected one error envelope"),
            }
        }
        RequestOutcome::NeedsBridge { .. } => panic!("a malformed frame starts nothing"),
    }

    // The session still works: a subsequent valid request is processed.
    let (outcome, connected) = session.handle_frame(
        &mut reg,
        InboundFrame::Text {
            text: "{\"type\":\"SUBSCRIBE\",\"payload\":{\"room\":\"btc\"}}".to_string(),
        },
    );
    assert!(connected);
    match outcome {
        RequestOutcome::NeedsBridge { room } => {
            let actions = session.complete_subscribe(&mut reg, room, true);
            assert_eq!(actions.len(), 2);
        }
        RequestOutcome::Done { .. } => panic!("a room that is not live needs a bridge first"),
    }
    assert!(session.is_subscribed(&"btc".to_string()));
}

#[test]
fn ping_is_answered_with_same_payload() {
    let mut reg = RoomRegistry::new();
    let mut session = Session::new();
    let (outcome, connected) = session.handle_frame(
        &mut reg,
        InboundFrame::Ping { data: vec![1, 2, 3] },
    );
    assert!(connected);
    match outcome {
        RequestOutcome::Done { actions } => {
            assert_eq!(actions.len(), 1);
            assert!(matches!(&actions[0], Action::SendPong { data } if data == &vec![1u8, 2, 3]));
        }
        RequestOutcome::NeedsBridge { .. } => panic!("a ping starts nothing"),
    }
}

#[test]
fn binary_and_pong_frames_are_ignored() {
    let mut reg = RoomRegistry::new();
    let mut session = Session::new();
    let (outcome, connected) = session.handle_frame(
        &mut reg,
        InboundFrame::Binary { data: vec![0xde, 0xad] },
    );
    assert!(connected);
    assert!(matches!(outcome, RequestOutcome::Done { actions } if actions.is_empty()));
    let (outcome, connected) = session.handle_frame(&mut reg, InboundFrame::Pong { data: vec![] });
    assert!(connected);
    assert!(matches!(outcome, RequestOutcome::Done { actions } if actions.is_empty()));
}

#[test]
fn close_frame_ends_the_session() {
    let mut reg = RoomRegistry::new();
    let mut session = Session::new();
    subscribe_ok(&mut session, &mut reg, "btc");
    let (outcome, connected) = session.handle_frame(&mut reg, InboundFrame::Close);
    assert!(!connected);
    assert!(matches!(outcome, RequestOutcome::Done { actions } if actions.is_empty()));
    let teardown = session.disconnect(&mut reg);
    assert_eq!(teardown.len(), 2);
    assert!(matches!(&teardown[0], Action::StopForwarder { room } if room == "btc"));
    assert!(matches!(&teardown[1], Action::StopBridge { room, .. } if room == "btc"));
}
