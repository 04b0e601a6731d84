//! The bus bridge's decision core. One bridge runs per live room: it
//! subscribes to the bus under the room's channel key and republishes
//! every payload it receives, unchanged, onto the room's local fan-out
//! channel. A bridge that could not connect and subscribe never runs —
//! that outcome fails the triggering subscribe and the room is not
//! created (see `Session::complete_subscribe`). The running bridge's
//! loop performs I/O outside this crate and feeds each outcome through
//! `bridge_step`, which decides what follows: a bus failure after the
//! start is terminal for the bridge alone, an undecodable payload is
//! skipped, and a fan-out channel without receivers stops the bridge.

use vstd::prelude::*;

verus! {

/// One outcome of the running bridge's bus loop.
pub enum BridgeEvent {
    /// One payload arrived on the room's bus channel.
    BusMessage { payload: String },
    /// A bus message arrived but its payload could not be read as text.
    PayloadUnreadable,
    /// Receiving from the bus failed after the subscription stood.
    ReceiveFailed,
    /// The local fan-out channel has no receivers left.
    FanoutClosed,
}

/// What the bridge does next.
pub enum BridgeAction {
    /// Publish the payload, unchanged, onto the room's fan-out channel.
    Forward { payload: String },
    /// Drop this message and keep listening.
    Skip,
    /// Stop this bridge; the room's channel receives nothing further
    /// from it until a later subscribe re-creates room and bridge.
    Stop,
}

/// Model of a bridge event.
#[verifier::ext_equal]
pub enum BridgeEventModel {
    BusMessage { payload: Seq<char> },
    PayloadUnreadable,
    ReceiveFailed,
    FanoutClosed,
}

impl View for BridgeEvent {
    type V = BridgeEventModel;

    open spec fn view(&self) -> BridgeEventModel {
        match self {
            BridgeEvent::BusMessage { payload } => BridgeEventModel::BusMessage {
                payload: payload@,
            },
            BridgeEvent::PayloadUnreadable => BridgeEventModel::PayloadUnreadable,
            BridgeEvent::ReceiveFailed => BridgeEventModel::ReceiveFailed,
            BridgeEvent::FanoutClosed => BridgeEventModel::FanoutClosed,
        }
    }
}

/// Model of a bridge action.
#[verifier::ext_equal]
pub enum BridgeActionModel {
    Forward { payload: Seq<char> },
    Skip,
    Stop,
}

impl View for BridgeAction {
    type V = BridgeActionModel;

    open spec fn view(&self) -> BridgeActionModel {
        match self {
            BridgeAction::Forward { payload } => BridgeActionModel::Forward { payload: payload@ },
            BridgeAction::Skip => BridgeActionModel::Skip,
            BridgeAction::Stop => BridgeActionModel::Stop,
        }
    }
}

/// The running bridge's failure policy and forwarding rule as one step:
/// every received payload is forwarded unchanged; an unreadable payload
/// is skipped and the bridge keeps listening; a bus failure after the
/// start, or a fan-out channel without receivers, stops this bridge and
/// nothing else.
pub fn bridge_step(event: BridgeEvent) -> (r: BridgeAction)
    ensures
        r@ == match event@ {
            BridgeEventModel::BusMessage { payload } => BridgeActionModel::Forward { payload },
            BridgeEventModel::PayloadUnreadable => BridgeActionModel::Skip,
            BridgeEventModel::ReceiveFailed => BridgeActionModel::Stop,
            BridgeEventModel::FanoutClosed => BridgeActionModel::Stop,
        },
{
    match event {
        BridgeEvent::BusMessage { payload } => BridgeAction::Forward { payload },
        BridgeEvent::PayloadUnreadable => BridgeAction::Skip,
        BridgeEvent::ReceiveFailed => BridgeAction::Stop,
        BridgeEvent::FanoutClosed => BridgeAction::Stop,
    }
}

/// The channel key a room's bus traffic runs under: the room name
/// itself, the one deterministic key both the publisher and every
/// bridge derive.
pub fn channel_key(room: &String) -> (r: String)
    ensures
        r@ == room@,
{
    room.clone()
}

} // verus!
