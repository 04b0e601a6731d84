use room_relay::registry::{ReleaseOutcome, RoomRegistry};

#[test]
fn first_acquire_creates_room() {
    let mut reg = RoomRegistry::new();
    let (chan, created) = reg.acquire(&"btc".to_string());
    assert!(created);
    assert_eq!(chan, 0);
}

#[test]
fn second_acquire_reuses_channel() {
    let mut reg = RoomRegistry::new();
    let (chan1, created1) = reg.acquire(&"btc".to_string());
    let (chan2, created2) = reg.acquire(&"btc".to_string());
    assert!(created1);
    assert!(!created2);
    assert_eq!(chan1, chan2);
}

#[test]
fn distinct_rooms_get_distinct_channels() {
    let mut reg = RoomRegistry::new();
    let (chan_btc, _) = reg.acquire(&"btc".to_string());
    let (chan_eth, _) = reg.acquire(&"eth".to_string());
    assert_ne!(chan_btc, chan_eth);
}

#[test]
fn release_decrements_then_removes() {
    let mut reg = RoomRegistry::new();
    let (chan, _) = reg.acquire(&"btc".to_string());
    let (_, _) = reg.acquire(&"btc".to_string());
    match reg.release(&"btc".to_string()) {
        ReleaseOutcome::Decremented => {}
        _ => panic!("two holders: first release must only decrement"),
    }
    match reg.release(&"btc".to_string()) {
        ReleaseOutcome::Removed { channel } => assert_eq!(channel, chan),
        _ => panic!("last release must remove the room"),
    }
}

#[test]
fn release_of_absent_room_is_noop() {
    let mut reg = RoomRegistry::new();
    match reg.release(&"nosuch".to_string()) {
        ReleaseOutcome::Absent => {}
        _ => panic!("absent room must be a guarded no-op"),
    }
    let (_, _) = reg.acquire(&"btc".to_string());
    match reg.release(&"btc".to_string()) {
        ReleaseOutcome::Removed { .. } => {}
        _ => panic!("only holder left: room must go"),
    }
    match reg.release(&"btc".to_string()) {
        ReleaseOutcome::Absent => {}
        _ => panic!("double release must be a guarded no-op"),
    }
}

#[test]
fn recreated_room_gets_fresh_channel() {
    let mut reg = RoomRegistry::new();
    let (chan1, _) = reg.acquire(&"btc".to_string());
    match reg.release(&"btc".to_string()) {
        ReleaseOutcome::Removed { channel } => assert_eq!(channel, chan1),
        _ => panic!("expected removal"),
    }
    let (chan2, created) = reg.acquire(&"btc".to_string());
    assert!(created);
    assert_ne!(chan1, chan2);
}
