//! Per-connection session state: the set of rooms a client holds, the
//! step semantics of each client request, and session teardown. A session
//! never performs I/O itself: every step returns the actions the
//! surrounding connection task must carry out (spawn or cancel a
//! forwarding task, attach or stop a bus bridge, publish to the bus, or
//! write a frame back to the client). A subscribe to a room that is not
//! live goes in two steps: the session first asks for a bus bridge, and
//! only a started bridge lets the room stand — a failed start fails the
//! subscribe and creates nothing.

use vstd::prelude::*;

use crate::protocol::{ClientRequest, EnvelopeModel, RequestModel, ServerMessage};
use crate::registry::{
    acquire_spec, channel_at, count_at, has_room, lemma_acquire_props, lemma_release_props,
    release_spec, RegistryModel, ReleaseOutcome, RoomRegistry,
};

verus! {

/// Model of one held subscription: the room and the identity of the
/// fan-out channel the session's forwarding task is attached to.
#[verifier::ext_equal]
pub struct SubModel {
    pub room: Seq<char>,
    pub channel: nat,
}

/// Index of the subscription for `room`, or -1 when the session does not
/// hold the room.
pub open spec fn sub_index_of(subs: Seq<SubModel>, room: Seq<char>) -> int
    decreases subs.len(),
{
    if subs.len() == 0 {
        -1
    } else if subs[0].room == room {
        0
    } else {
        let k = sub_index_of(subs.drop_first(), room);
        if k < 0 {
            -1
        } else {
            k + 1
        }
    }
}

/// Whether the session holds `room`.
pub open spec fn subscribed(subs: Seq<SubModel>, room: Seq<char>) -> bool {
    sub_index_of(subs, room) >= 0
}

/// A session holds each room at most once.
pub open spec fn wf_subs(subs: Seq<SubModel>) -> bool {
    forall|i: int, j: int|
        #![trigger subs[i], subs[j]]
        0 <= i < j < subs.len() ==> subs[i].room != subs[j].room
}

/// `sub_index_of` finds exactly the first matching subscription.
pub proof fn lemma_sub_index_of(subs: Seq<SubModel>, room: Seq<char>)
    ensures
        -1 <= sub_index_of(subs, room) < subs.len(),
        sub_index_of(subs, room) >= 0 ==> subs[sub_index_of(subs, room)].room == room,
        forall|j: int|
            0 <= j < subs.len() && #[trigger] subs[j].room == room ==> sub_index_of(subs, room) >= 0
                && sub_index_of(subs, room) <= j,
    decreases subs.len(),
{
    if subs.len() > 0 && subs[0].room != room {
        lemma_sub_index_of(subs.drop_first(), room);
        assert forall|j: int|
            0 <= j < subs.len() && #[trigger] subs[j].room == room implies sub_index_of(subs, room)
            >= 0 && sub_index_of(subs, room) <= j by {
            assert(subs.drop_first()[j - 1] == subs[j]);
        }
    }
}

/// Appending a subscription for an unheld room keeps the session well
/// formed and makes exactly that room held.
pub proof fn lemma_subs_push(subs: Seq<SubModel>, e: SubModel)
    requires
        wf_subs(subs),
        !subscribed(subs, e.room),
    ensures
        wf_subs(subs.push(e)),
        subscribed(subs.push(e), e.room),
        forall|other: Seq<char>|
            other != e.room ==> #[trigger] subscribed(subs.push(e), other) == subscribed(
                subs,
                other,
            ),
{
    lemma_sub_index_of(subs, e.room);
    let p = subs.push(e);
    lemma_sub_index_of(p, e.room);
    assert(p[subs.len() as int] == e);
    assert forall|i: int, j: int|
        #![trigger p[i], p[j]]
        0 <= i < j < p.len() implies p[i].room != p[j].room by {
        if j == subs.len() as int && p[i].room == e.room {
            lemma_sub_index_of(subs, e.room);
        }
    }
    assert forall|other: Seq<char>|
        other != e.room implies #[trigger] subscribed(p, other) == subscribed(subs, other) by {
        lemma_sub_index_of(p, other);
        lemma_sub_index_of(subs, other);
        if subscribed(subs, other) {
            let j = sub_index_of(subs, other);
            assert(p[j] == subs[j]);
        }
        if subscribed(p, other) {
            let j = sub_index_of(p, other);
            assert(p[j] == subs[j]);
        }
    }
}

/// Removing the subscription at `i` from a well-formed session drops
/// exactly that room and keeps every other room's standing.
pub proof fn lemma_subs_remove(subs: Seq<SubModel>, i: int)
    requires
        wf_subs(subs),
        0 <= i < subs.len(),
    ensures
        wf_subs(subs.remove(i)),
        !subscribed(subs.remove(i), subs[i].room),
        forall|other: Seq<char>|
            other != subs[i].room ==> #[trigger] subscribed(subs.remove(i), other) == subscribed(
                subs,
                other,
            ),
{
    let r2 = subs.remove(i);
    assert forall|p: int, q: int|
        #![trigger r2[p], r2[q]]
        0 <= p < q < r2.len() implies r2[p].room != r2[q].room by {
        let p0 = if p < i {
            p
        } else {
            p + 1
        };
        let q0 = if q < i {
            q
        } else {
            q + 1
        };
        assert(r2[p] == subs[p0]);
        assert(r2[q] == subs[q0]);
    }
    lemma_sub_index_of(r2, subs[i].room);
    assert forall|j: int| 0 <= j < r2.len() implies (#[trigger] r2[j]).room != subs[i].room by {
        if j < i {
            assert(r2[j] == subs[j]);
        } else {
            assert(r2[j] == subs[j + 1]);
        }
    }
    assert forall|other: Seq<char>|
        other != subs[i].room implies #[trigger] subscribed(r2, other) == subscribed(subs, other) by {
        lemma_sub_index_of(r2, other);
        lemma_sub_index_of(subs, other);
        if subscribed(subs, other) {
            let j = sub_index_of(subs, other);
            let j2 = if j < i {
                j
            } else {
                j - 1
            };
            assert(r2[j2] == subs[j]);
        }
        if subscribed(r2, other) {
            let j = sub_index_of(r2, other);
            let j0 = if j < i {
                j
            } else {
                j + 1
            };
            assert(r2[j] == subs[j0]);
        }
    }
}

/// An action the connection task must carry out after a session step.
pub enum Action {
    /// Install the room's fan-out channel under identity `channel` and
    /// hand it to the bus bridge just started for `room`.
    AttachBridge { room: String, channel: u64 },
    /// Spawn a forwarding task for this session, attached to channel
    /// `channel` of `room`.
    StartForwarder { room: String, channel: u64 },
    /// Cancel this session's forwarding task for `room`.
    StopForwarder { room: String },
    /// Stop the bus bridge of `room` and drop the fan-out channel with
    /// identity `channel`: its last subscriber left.
    StopBridge { room: String, channel: u64 },
    /// Publish `message` on the bus under `room`'s channel key.
    PublishToBus { room: String, message: String },
    /// Write a text frame back to this session's client.
    SendText { text: String },
    /// Answer a ping with a pong carrying the same payload.
    SendPong { data: Vec<u8> },
}

/// Model of an action.
#[verifier::ext_equal]
pub enum ActionModel {
    AttachBridge { room: Seq<char>, channel: nat },
    StartForwarder { room: Seq<char>, channel: nat },
    StopForwarder { room: Seq<char> },
    StopBridge { room: Seq<char>, channel: nat },
    PublishToBus { room: Seq<char>, message: Seq<char> },
    SendText { text: Seq<char> },
    SendPong { data: Seq<u8> },
}

impl View for Action {
    type V = ActionModel;

    open spec fn view(&self) -> ActionModel {
        match self {
            Action::AttachBridge { room, channel } => ActionModel::AttachBridge {
                room: room@,
                channel: *channel as nat,
            },
            Action::StartForwarder { room, channel } => ActionModel::StartForwarder {
                room: room@,
                channel: *channel as nat,
            },
            Action::StopForwarder { room } => ActionModel::StopForwarder { room: room@ },
            Action::StopBridge { room, channel } => ActionModel::StopBridge {
                room: room@,
                channel: *channel as nat,
            },
            Action::PublishToBus { room, message } => ActionModel::PublishToBus {
                room: room@,
                message: message@,
            },
            Action::SendText { text } => ActionModel::SendText { text: text@ },
            Action::SendPong { data } => ActionModel::SendPong { data: data@ },
        }
    }
}

/// The models of a list of actions.
pub open spec fn action_models(actions: Seq<Action>) -> Seq<ActionModel> {
    actions.map_values(|a: Action| a@)
}

/// Joint outcome of one session step: the registry after it, the
/// session's subscriptions after it, and the actions it demands.
#[verifier::ext_equal]
pub struct StepModel {
    pub reg: RegistryModel,
    pub subs: Seq<SubModel>,
    pub actions: Seq<ActionModel>,
}

/// What a subscribe request does when no new bus bridge is needed:
/// nothing when the room is already held (idempotence); when the room is
/// live, acquire it and start one forwarding task on its channel. A
/// subscribe to a room that is not live changes nothing here: a bus
/// bridge must stand first — see `needs_bridge` and
/// `bridge_outcome_step`.
pub open spec fn subscribe_step(reg: RegistryModel, subs: Seq<SubModel>, room: Seq<char>) -> StepModel {
    if subscribed(subs, room) || !has_room(reg.rooms, room) {
        StepModel { reg, subs, actions: Seq::empty() }
    } else {
        let reg2 = acquire_spec(reg, room);
        let chan = channel_at(reg2.rooms, room);
        StepModel {
            reg: reg2,
            subs: subs.push(SubModel { room, channel: chan }),
            actions: seq![ActionModel::StartForwarder { room, channel: chan }],
        }
    }
}

/// Whether a request is a subscribe that must first start a bus bridge:
/// the session does not hold the room and no room by that name is live.
pub open spec fn needs_bridge(reg: RegistryModel, subs: Seq<SubModel>, req: RequestModel) -> bool {
    match req {
        RequestModel::Subscribe { room } => !subscribed(subs, room) && !has_room(reg.rooms, room),
        RequestModel::Unsubscribe { .. } => false,
        RequestModel::SendMessage { .. } => false,
    }
}

/// What completing a subscribe for a room that was not live does, given
/// whether its bus bridge could be started. Started: the room is created
/// with count 1 and a fresh channel, the bridge is attached to that
/// channel and one forwarding task starts on it. Failed: the subscribe
/// fails — the room is not created, the session holds nothing new, and
/// nothing is demanded.
pub open spec fn bridge_outcome_step(
    reg: RegistryModel,
    subs: Seq<SubModel>,
    room: Seq<char>,
    started: bool,
) -> StepModel {
    if started {
        let reg2 = acquire_spec(reg, room);
        let chan = channel_at(reg2.rooms, room);
        StepModel {
            reg: reg2,
            subs: subs.push(SubModel { room, channel: chan }),
            actions: seq![
                ActionModel::AttachBridge { room, channel: chan },
                ActionModel::StartForwarder { room, channel: chan },
            ],
        }
    } else {
        StepModel { reg, subs, actions: Seq::empty() }
    }
}

/// What an unsubscribe request does: nothing when the room is not held;
/// otherwise stop the forwarding task, drop the entry and release the
/// room — stopping its bridge when this was the last subscriber.
pub open spec fn unsubscribe_step(
    reg: RegistryModel,
    subs: Seq<SubModel>,
    room: Seq<char>,
) -> StepModel {
    let i = sub_index_of(subs, room);
    if i < 0 {
        StepModel { reg, subs, actions: Seq::empty() }
    } else {
        StepModel {
            reg: release_spec(reg, room),
            subs: subs.remove(i),
            actions: if count_at(reg.rooms, room) == 1 {
                seq![
                    ActionModel::StopForwarder { room },
                    ActionModel::StopBridge { room, channel: channel_at(reg.rooms, room) },
                ]
            } else {
                seq![ActionModel::StopForwarder { room }]
            },
        }
    }
}

/// What a publish request does: hand the message to the bus under the
/// room's channel key, whether or not the room is held locally. Delivery
/// always makes the round trip through the bus.
pub open spec fn publish_step(
    reg: RegistryModel,
    subs: Seq<SubModel>,
    room: Seq<char>,
    message: Seq<char>,
) -> StepModel {
    StepModel { reg, subs, actions: seq![ActionModel::PublishToBus { room, message }] }
}

/// The step a decoded client request takes.
pub open spec fn request_step(reg: RegistryModel, subs: Seq<SubModel>, req: RequestModel) -> StepModel {
    match req {
        RequestModel::Subscribe { room } => subscribe_step(reg, subs, room),
        RequestModel::Unsubscribe { room } => unsubscribe_step(reg, subs, room),
        RequestModel::SendMessage { room, message } => publish_step(reg, subs, room, message),
    }
}

/// The machine-limit side condition of a step: a subscribe that joins a
/// live room must not overflow that room's count.
pub open spec fn step_fits(reg: RegistryModel, subs: Seq<SubModel>, req: RequestModel) -> bool {
    match req {
        RequestModel::Subscribe { room } => subscribed(subs, room) || !has_room(reg.rooms, room)
            || count_at(reg.rooms, room) < u64::MAX,
        RequestModel::Unsubscribe { room } => true,
        RequestModel::SendMessage { .. } => true,
    }
}

/// Registry state and demanded actions after a session teardown that
/// releases every held room in order.
#[verifier::ext_equal]
pub struct TeardownModel {
    pub reg: RegistryModel,
    pub actions: Seq<ActionModel>,
}

/// What disconnecting does: for each held room in order, stop its
/// forwarding task and release it, stopping the bridge of each room whose
/// last subscriber this was.
pub open spec fn disconnect_step(reg: RegistryModel, subs: Seq<SubModel>) -> TeardownModel
    decreases subs.len(),
{
    if subs.len() == 0 {
        TeardownModel { reg, actions: Seq::empty() }
    } else {
        let room = subs[0].room;
        let acts = if count_at(reg.rooms, room) == 1 {
            seq![
                ActionModel::StopForwarder { room },
                ActionModel::StopBridge { room, channel: channel_at(reg.rooms, room) },
            ]
        } else {
            seq![ActionModel::StopForwarder { room }]
        };
        let rest = disconnect_step(release_spec(reg, room), subs.drop_first());
        TeardownModel { reg: rest.reg, actions: acts + rest.actions }
    }
}

/// One inbound transport frame, as the connection task hands it over.
pub enum InboundFrame {
    /// A text frame, expected to hold one encoded client request.
    Text { text: String },
    /// A binary frame: unexpected, logged and ignored.
    Binary { data: Vec<u8> },
    /// A ping, to be answered with a pong carrying the same payload.
    Ping { data: Vec<u8> },
    /// A pong from the client: ignored.
    Pong { data: Vec<u8> },
    /// The client closed the connection.
    Close,
}

/// Model of an inbound frame.
#[verifier::ext_equal]
pub enum FrameModel {
    Text { text: Seq<char> },
    Binary { data: Seq<u8> },
    Ping { data: Seq<u8> },
    Pong { data: Seq<u8> },
    Close,
}

impl View for InboundFrame {
    type V = FrameModel;

    open spec fn view(&self) -> FrameModel {
        match self {
            InboundFrame::Text { text } => FrameModel::Text { text: text@ },
            InboundFrame::Binary { data } => FrameModel::Binary { data: data@ },
            InboundFrame::Ping { data } => FrameModel::Ping { data: data@ },
            InboundFrame::Pong { data } => FrameModel::Pong { data: data@ },
            InboundFrame::Close => FrameModel::Close,
        }
    }
}

/// Outcome of one frame: the joint step it causes and whether the
/// session is still connected afterwards.
#[verifier::ext_equal]
pub struct FrameOutcome {
    pub step: StepModel,
    pub connected: bool,
}

/// What one inbound frame does. A text frame in the request grammar
/// takes its request's step; a malformed text frame answers with one
/// error envelope and changes nothing else — the session stays
/// connected and keeps processing. Pings are answered with pongs,
/// binary frames and pongs are ignored, and a close ends the session
/// (the connection task must then tear it down).
pub open spec fn frame_step(
    reg: RegistryModel,
    subs: Seq<SubModel>,
    frame: FrameModel,
) -> FrameOutcome {
    match frame {
        FrameModel::Text { text } => match crate::codec::parse_request_model(text) {
            Some(rm) => FrameOutcome { step: request_step(reg, subs, rm), connected: true },
            None => FrameOutcome {
                step: StepModel {
                    reg,
                    subs,
                    actions: seq![
                        ActionModel::SendText {
                            text: crate::codec::error_json("Failed to parse message"@),
                        },
                    ],
                },
                connected: true,
            },
        },
        FrameModel::Binary { .. } => FrameOutcome {
            step: StepModel { reg, subs, actions: Seq::empty() },
            connected: true,
        },
        FrameModel::Ping { data } => FrameOutcome {
            step: StepModel { reg, subs, actions: seq![ActionModel::SendPong { data }] },
            connected: true,
        },
        FrameModel::Pong { .. } => FrameOutcome {
            step: StepModel { reg, subs, actions: Seq::empty() },
            connected: true,
        },
        FrameModel::Close => FrameOutcome {
            step: StepModel { reg, subs, actions: Seq::empty() },
            connected: false,
        },
    }
}

/// The machine-limit side condition of a frame: whatever request its
/// text decodes to must fit the registry's counters.
pub open spec fn frame_fits(reg: RegistryModel, subs: Seq<SubModel>, frame: FrameModel) -> bool {
    match frame {
        FrameModel::Text { text } => match crate::codec::parse_request_model(text) {
            Some(rm) => step_fits(reg, subs, rm),
            None => true,
        },
        _ => true,
    }
}

/// Whether a frame is a subscribe that must first start a bus bridge.
pub open spec fn frame_needs_bridge(
    reg: RegistryModel,
    subs: Seq<SubModel>,
    frame: FrameModel,
) -> bool {
    match frame {
        FrameModel::Text { text } => match crate::codec::parse_request_model(text) {
            Some(rm) => needs_bridge(reg, subs, rm),
            None => false,
        },
        _ => false,
    }
}

/// Outcome of handing one request to a session.
pub enum RequestOutcome {
    /// The request was carried through: perform these actions.
    Done { actions: Vec<Action> },
    /// A subscribe to a room that is not live. Nothing changed yet: the
    /// connection task must try to start a bus bridge for `room` and
    /// hand the outcome to `complete_subscribe`.
    NeedsBridge { room: String },
}

/// One held subscription of the executable session.
struct SubEntry {
    room: String,
    channel: u64,
}

impl SubEntry {
    spec fn model(self) -> SubModel {
        SubModel { room: self.room@, channel: self.channel as nat }
    }
}

/// The per-connection session: the rooms this client currently holds,
/// each with the channel its forwarding task is attached to.
pub struct Session {
    subs: Vec<SubEntry>,
}

impl View for Session {
    type V = Seq<SubModel>;

    closed spec fn view(&self) -> Seq<SubModel> {
        self.subs@.map_values(|e: SubEntry| e.model())
    }
}

impl Session {
    /// Well-formedness: each room is held at most once.
    pub open spec fn wf(self) -> bool {
        wf_subs(self@)
    }

    /// A fresh session holding no rooms.
    pub fn new() -> (r: Session)
        ensures
            r.wf(),
            r@ =~= Seq::<SubModel>::empty(),
    {
        let r = Session { subs: Vec::new() };
        proof {
            assert(r@ =~= Seq::<SubModel>::empty());
        }
        r
    }

    /// Index of the subscription for `room`, if the session holds it.
    fn find(&self, room: &String) -> (r: Option<usize>)
        ensures
            match r {
                Some(i) => sub_index_of(self@, room@) == i as int,
                None => sub_index_of(self@, room@) == -1,
            },
    {
        proof {
            lemma_sub_index_of(self@, room@);
        }
        let n = self.subs.len();
        let mut i: usize = 0;
        while i < n
            invariant
                i <= n,
                n == self.subs.len(),
                forall|j: int| 0 <= j < i ==> (#[trigger] self@[j]).room != room@,
                -1 <= sub_index_of(self@, room@) < n as int,
                sub_index_of(self@, room@) >= 0 ==> self@[sub_index_of(self@, room@)].room
                    == room@,
                forall|j: int|
                    0 <= j < n as int && (#[trigger] self@[j]).room == room@ ==> sub_index_of(
                        self@,
                        room@,
                    ) >= 0 && sub_index_of(self@, room@) <= j,
            decreases n - i,
        {
            if self.subs[i].room == *room {
                proof {
                    assert(self@[i as int].room == room@);
                }
                return Some(i);
            }
            i += 1;
        }
        None
    }

    /// Whether this session currently holds `room`.
    pub fn is_subscribed(&self, room: &String) -> (r: bool)
        ensures
            r == subscribed(self@, room@),
    {
        self.find(room).is_some()
    }

    /// Carry one decoded client request through the session and the
    /// registry. A subscribe to a room that is not live changes nothing
    /// and asks the connection task to start a bus bridge first: the
    /// outcome of that start goes to `complete_subscribe`. Every other
    /// request is carried through, returning the actions the connection
    /// task must perform.
    pub fn handle_request(&mut self, reg: &mut RoomRegistry, req: ClientRequest) -> (r:
        RequestOutcome)
        requires
            old(self).wf(),
            old(reg).wf(),
            step_fits(old(reg)@, old(self)@, req@),
        ensures
            final(self).wf(),
            final(reg).wf(),
            final(reg)@ == request_step(old(reg)@, old(self)@, req@).reg,
            final(self)@ == request_step(old(reg)@, old(self)@, req@).subs,
            match r {
                RequestOutcome::Done { actions } => !needs_bridge(old(reg)@, old(self)@, req@)
                    && action_models(actions@) == request_step(old(reg)@, old(self)@, req@).actions,
                RequestOutcome::NeedsBridge { room } => needs_bridge(old(reg)@, old(self)@, req@)
                    && req@ == (RequestModel::Subscribe { room: room@ }),
            },
    {
        let ghost req_m = req@;
        let mut actions: Vec<Action> = Vec::new();
        match req {
            ClientRequest::Subscribe { payload } => {
                let room = payload.room;
                let ghost rm = room@;
                let ghost step = subscribe_step(old(reg)@, old(self)@, rm);
                match self.find(&room) {
                    Some(_) => {
                        proof {
                            assert(action_models(actions@) =~= step.actions);
                        }
                        RequestOutcome::Done { actions }
                    },
                    None => {
                        if reg.contains(&room) {
                            let (chan, created) = reg.acquire(&room);
                            actions.push(
                                Action::StartForwarder { room: room.clone(), channel: chan },
                            );
                            self.subs.push(SubEntry { room, channel: chan });
                            proof {
                                lemma_acquire_props(old(reg)@, rm);
                                assert(self@ =~= step.subs);
                                lemma_subs_push(
                                    old(self)@,
                                    SubModel { room: rm, channel: chan as nat },
                                );
                                assert(action_models(actions@) =~= step.actions);
                            }
                            RequestOutcome::Done { actions }
                        } else {
                            RequestOutcome::NeedsBridge { room }
                        }
                    },
                }
            },
            ClientRequest::Unsubscribe { payload } => {
                let room = payload.room;
                let ghost rm = room@;
                let ghost step = unsubscribe_step(old(reg)@, old(self)@, rm);
                match self.find(&room) {
                    Some(i) => {
                        proof {
                            lemma_sub_index_of(old(self)@, rm);
                        }
                        self.subs.remove(i);
                        actions.push(Action::StopForwarder { room: room.clone() });
                        match reg.release(&room) {
                            ReleaseOutcome::Removed { channel } => {
                                actions.push(Action::StopBridge { room, channel });
                            },
                            ReleaseOutcome::Decremented => {},
                            ReleaseOutcome::Absent => {},
                        }
                        proof {
                            lemma_sub_index_of(old(self)@, rm);
                            lemma_subs_remove(old(self)@, sub_index_of(old(self)@, rm));
                            lemma_release_props(old(reg)@, rm);
                            assert(self@ =~= step.subs);
                            assert(action_models(actions@) =~= step.actions);
                        }
                    },
                    None => {
                        proof {
                            assert(action_models(actions@) =~= step.actions);
                        }
                    },
                }
                RequestOutcome::Done { actions }
            },
            ClientRequest::SendMessage { payload } => {
                actions.push(
                    Action::PublishToBus { room: payload.room, message: payload.message },
                );
                proof {
                    assert(action_models(actions@) =~= request_step(
                        old(reg)@,
                        old(self)@,
                        req_m,
                    ).actions);
                }
                RequestOutcome::Done { actions }
            },
        }
    }

    /// Complete a subscribe for a room that was not live, after the
    /// connection task attempted to start the room's bus bridge. Started:
    /// the room is created with count 1 and a fresh channel, the bridge
    /// is attached to it and one forwarding task starts. Failed: the
    /// subscribe fails — the room is not created and the session holds
    /// nothing new.
    pub fn complete_subscribe(
        &mut self,
        reg: &mut RoomRegistry,
        room: String,
        started: bool,
    ) -> (actions: Vec<Action>)
        requires
            old(self).wf(),
            old(reg).wf(),
            !subscribed(old(self)@, room@),
            !has_room(old(reg)@.rooms, room@),
            started ==> old(reg)@.fresh < u64::MAX,
        ensures
            final(self).wf(),
            final(reg).wf(),
            final(reg)@ == bridge_outcome_step(old(reg)@, old(self)@, room@, started).reg,
            final(self)@ == bridge_outcome_step(old(reg)@, old(self)@, room@, started).subs,
            action_models(actions@) == bridge_outcome_step(
                old(reg)@,
                old(self)@,
                room@,
                started,
            ).actions,
    {
        let ghost rm = room@;
        let ghost step = bridge_outcome_step(old(reg)@, old(self)@, rm, started);
        let mut actions: Vec<Action> = Vec::new();
        if started {
            let (chan, created) = reg.acquire(&room);
            actions.push(Action::AttachBridge { room: room.clone(), channel: chan });
            actions.push(Action::StartForwarder { room: room.clone(), channel: chan });
            self.subs.push(SubEntry { room, channel: chan });
            proof {
                lemma_acquire_props(old(reg)@, rm);
                assert(self@ =~= step.subs);
                lemma_subs_push(old(self)@, SubModel { room: rm, channel: chan as nat });
                assert(action_models(actions@) =~= step.actions);
            }
        } else {
            proof {
                assert(action_models(actions@) =~= step.actions);
            }
        }
        actions
    }

    /// Tear the session down: stop every forwarding task it holds and
    /// release every held room, in order. After this the session holds
    /// nothing; each held room was released exactly once.
    pub fn disconnect(&mut self, reg: &mut RoomRegistry) -> (actions: Vec<Action>)
        requires
            old(self).wf(),
            old(reg).wf(),
        ensures
            final(self).wf(),
            final(reg).wf(),
            final(self)@ =~= Seq::<SubModel>::empty(),
            final(reg)@ == disconnect_step(old(reg)@, old(self)@).reg,
            action_models(actions@) == disconnect_step(old(reg)@, old(self)@).actions,
    {
        let ghost reg0 = old(reg)@;
        let ghost subs0 = old(self)@;
        let mut actions: Vec<Action> = Vec::new();
        proof {
            assert(action_models(actions@) + disconnect_step(reg0, subs0).actions =~= disconnect_step(
                reg0,
                subs0,
            ).actions);
        }
        while self.subs.len() > 0
            invariant
                self.wf(),
                reg.wf(),
                disconnect_step(reg0, subs0).reg == disconnect_step(reg@, self@).reg,
                disconnect_step(reg0, subs0).actions =~= action_models(actions@)
                    + disconnect_step(reg@, self@).actions,
            decreases self.subs.len(),
        {
            let ghost reg_cur = reg@;
            let ghost subs_cur = self@;
            let entry = self.subs.remove(0);
            let room = entry.room;
            let ghost rm = room@;
            actions.push(Action::StopForwarder { room: room.clone() });
            match reg.release(&room) {
                ReleaseOutcome::Removed { channel } => {
                    actions.push(Action::StopBridge { room, channel });
                },
                ReleaseOutcome::Decremented => {},
                ReleaseOutcome::Absent => {},
            }
            proof {
                assert(self@ =~= subs_cur.drop_first());
                lemma_subs_remove(subs_cur, 0);
                lemma_release_props(reg_cur, rm);
                assert(disconnect_step(reg0, subs0).actions =~= action_models(actions@)
                    + disconnect_step(reg@, self@).actions);
            }
        }
        proof {
            assert(self@ =~= Seq::<SubModel>::empty());
            assert(action_models(actions@) + Seq::<ActionModel>::empty() =~= action_models(
                actions@,
            ));
        }
        actions
    }

    /// Carry one inbound transport frame through the session: decode a
    /// text frame and take its request's step, answer a malformed text
    /// frame with one error envelope (the session stays connected),
    /// answer pings, ignore binary frames and pongs, and report a close.
    /// A subscribe to a room that is not live changes nothing and asks
    /// for a bus bridge first (see `complete_subscribe`). Returns the
    /// outcome and whether the session is still connected; after a close
    /// the connection task calls `disconnect`.
    pub fn handle_frame(&mut self, reg: &mut RoomRegistry, frame: InboundFrame) -> (r: (
        RequestOutcome,
        bool,
    ))
        requires
            old(self).wf(),
            old(reg).wf(),
            frame_fits(old(reg)@, old(self)@, frame@),
        ensures
            final(self).wf(),
            final(reg).wf(),
            ({
                let o = frame_step(old(reg)@, old(self)@, frame@);
                &&& final(reg)@ == o.step.reg
                &&& final(self)@ == o.step.subs
                &&& r.1 == o.connected
                &&& match r.0 {
                    RequestOutcome::Done { actions } => !frame_needs_bridge(
                        old(reg)@,
                        old(self)@,
                        frame@,
                    ) && action_models(actions@) == o.step.actions,
                    RequestOutcome::NeedsBridge { room } => match frame@ {
                        FrameModel::Text { text } => crate::codec::parse_request_model(text)
                            == Some(RequestModel::Subscribe { room: room@ }) && needs_bridge(
                            old(reg)@,
                            old(self)@,
                            RequestModel::Subscribe { room: room@ },
                        ),
                        _ => false,
                    },
                }
            }),
    {
        match frame {
            InboundFrame::Text { text } => {
                let ghost tm = text@;
                match crate::codec::parse_client_request(text.as_str()) {
                    Ok(req) => {
                        let outcome = self.handle_request(reg, req);
                        (outcome, true)
                    },
                    Err(_) => {
                        let mut actions: Vec<Action> = Vec::new();
                        actions.push(
                            Action::SendText {
                                text: crate::codec::error_envelope("Failed to parse message"),
                            },
                        );
                        proof {
                            assert(action_models(actions@) =~= frame_step(
                                old(reg)@,
                                old(self)@,
                                frame@,
                            ).step.actions);
                        }
                        (RequestOutcome::Done { actions }, true)
                    },
                }
            },
            InboundFrame::Binary { data } => {
                let actions: Vec<Action> = Vec::new();
                proof {
                    assert(action_models(actions@) =~= Seq::<ActionModel>::empty());
                }
                (RequestOutcome::Done { actions }, true)
            },
            InboundFrame::Ping { data } => {
                let ghost dm = data@;
                let mut actions: Vec<Action> = Vec::new();
                actions.push(Action::SendPong { data });
                proof {
                    assert(action_models(actions@) =~= seq![ActionModel::SendPong { data: dm }]);
                }
                (RequestOutcome::Done { actions }, true)
            },
            InboundFrame::Pong { data } => {
                let actions: Vec<Action> = Vec::new();
                proof {
                    assert(action_models(actions@) =~= Seq::<ActionModel>::empty());
                }
                (RequestOutcome::Done { actions }, true)
            },
            InboundFrame::Close => {
                let actions: Vec<Action> = Vec::new();
                proof {
                    assert(action_models(actions@) =~= Seq::<ActionModel>::empty());
                }
                (RequestOutcome::Done { actions }, false)
            },
        }
    }

    /// The local fan-out decision of this session's forwarding tasks: a    /// The local fan-out decision of this session's forwarding tasks: a
    /// bus message for `room` is wrapped in an envelope exactly when the
    /// session holds the room, and is ignored otherwise.
    pub fn deliver(&self, room: &String, data: &String) -> (r: Option<ServerMessage>)
        ensures
            r is Some <==> subscribed(self@, room@),
            match r {
                Some(env) => env@.room == room@ && env@.data == data@,
                None => !subscribed(self@, room@),
            },
    {
        match self.find(room) {
            Some(_) => Some(ServerMessage { room: room.clone(), data: data.clone() }),
            None => None,
        }
    }
}

/// One outcome of a forwarding task's receive loop.
pub enum ForwarderEvent {
    /// One payload arrived on the room's fan-out channel.
    Payload { data: String },
    /// The task fell behind the bounded channel: `count` messages were
    /// dropped.
    Lagged { count: u64 },
    /// The fan-out channel closed: the room was destroyed.
    ChannelClosed,
    /// Writing the previous envelope to the client failed.
    WriteFailed,
}

/// Model of a forwarding-task event.
#[verifier::ext_equal]
pub enum ForwarderEventModel {
    Payload { data: Seq<char> },
    Lagged { count: nat },
    ChannelClosed,
    WriteFailed,
}

impl View for ForwarderEvent {
    type V = ForwarderEventModel;

    open spec fn view(&self) -> ForwarderEventModel {
        match self {
            ForwarderEvent::Payload { data } => ForwarderEventModel::Payload { data: data@ },
            ForwarderEvent::Lagged { count } => ForwarderEventModel::Lagged {
                count: *count as nat,
            },
            ForwarderEvent::ChannelClosed => ForwarderEventModel::ChannelClosed,
            ForwarderEvent::WriteFailed => ForwarderEventModel::WriteFailed,
        }
    }
}

/// What the forwarding task does next.
pub enum ForwarderAction {
    /// Write this envelope to the client.
    Deliver { envelope: ServerMessage },
    /// Drop what was missed and keep receiving; dropped messages are
    /// not retried or re-delivered.
    Skip,
    /// Exit the task.
    Stop,
}

/// Model of a forwarding-task action.
#[verifier::ext_equal]
pub enum ForwarderActionModel {
    Deliver { envelope: EnvelopeModel },
    Skip,
    Stop,
}

impl View for ForwarderAction {
    type V = ForwarderActionModel;

    open spec fn view(&self) -> ForwarderActionModel {
        match self {
            ForwarderAction::Deliver { envelope } => ForwarderActionModel::Deliver {
                envelope: envelope@,
            },
            ForwarderAction::Skip => ForwarderActionModel::Skip,
            ForwarderAction::Stop => ForwarderActionModel::Stop,
        }
    }
}

/// The exit rule of the forwarding task bound to `room`: every received
/// payload is delivered as the room's envelope; lag is logged and
/// skipped; a closed channel (the room was destroyed) or a failed write
/// (the socket is gone) ends the task.
pub fn forwarder_step(room: &String, event: ForwarderEvent) -> (r: ForwarderAction)
    ensures
        r@ == match event@ {
            ForwarderEventModel::Payload { data } => ForwarderActionModel::Deliver {
                envelope: EnvelopeModel { room: room@, data },
            },
            ForwarderEventModel::Lagged { .. } => ForwarderActionModel::Skip,
            ForwarderEventModel::ChannelClosed => ForwarderActionModel::Stop,
            ForwarderEventModel::WriteFailed => ForwarderActionModel::Stop,
        },
{
    match event {
        ForwarderEvent::Payload { data } => ForwarderAction::Deliver {
            envelope: ServerMessage { room: room.clone(), data },
        },
        ForwarderEvent::Lagged { .. } => ForwarderAction::Skip,
        ForwarderEvent::ChannelClosed => ForwarderAction::Stop,
        ForwarderEvent::WriteFailed => ForwarderAction::Stop,
    }
}

} // verus!
