//! Wire-level protocol types: the requests a client may send and the
//! messages the relay sends back, together with their mathematical models.

use vstd::prelude::*;

verus! {

/// Payload of a subscribe request: the room to join.
pub struct SubscribePayload {
    pub room: String,
}

/// Payload of an unsubscribe request: the room to leave.
pub struct UnsubscribePayload {
    pub room: String,
}

/// Payload of a publish request: the room and the opaque message text.
pub struct MessagePayload {
    pub room: String,
    pub message: String,
}

/// A decoded inbound client request, a closed set of tagged variants.
pub enum ClientRequest {
    Subscribe { payload: SubscribePayload },
    Unsubscribe { payload: UnsubscribePayload },
    SendMessage { payload: MessagePayload },
}

/// The envelope delivered to a client: the room a bus message arrived on
/// and its payload, both opaque strings.
pub struct ServerMessage {
    pub room: String,
    pub data: String,
}

/// Model of a client request: the variant with its fields as character
/// sequences.
#[verifier::ext_equal]
pub enum RequestModel {
    Subscribe { room: Seq<char> },
    Unsubscribe { room: Seq<char> },
    SendMessage { room: Seq<char>, message: Seq<char> },
}

impl View for ClientRequest {
    type V = RequestModel;

    open spec fn view(&self) -> RequestModel {
        match self {
            ClientRequest::Subscribe { payload } => RequestModel::Subscribe { room: payload.room@ },
            ClientRequest::Unsubscribe { payload } => RequestModel::Unsubscribe {
                room: payload.room@,
            },
            ClientRequest::SendMessage { payload } => RequestModel::SendMessage {
                room: payload.room@,
                message: payload.message@,
            },
        }
    }
}

/// Model of a delivered envelope.
#[verifier::ext_equal]
pub struct EnvelopeModel {
    pub room: Seq<char>,
    pub data: Seq<char>,
}

impl View for ServerMessage {
    type V = EnvelopeModel;

    open spec fn view(&self) -> EnvelopeModel {
        EnvelopeModel { room: self.room@, data: self.data@ }
    }
}

} // verus!
