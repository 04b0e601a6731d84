//! Relay-wide laws: how the registry's counts relate to the sessions'
//! held rooms across any sequence of steps, which sessions a bus message
//! reaches, and what a teardown releases. The executable registry and
//! session steps carry exact contracts over their models; the proofs here
//! state the properties that hold of those models jointly.

use vstd::prelude::*;

use crate::registry::{
    channel_at, count_at, has_room, lemma_acquire_props, lemma_release_props, wf_model,
    RegistryModel,
};
use crate::protocol::RequestModel;
use crate::session::{
    bridge_outcome_step, disconnect_step, lemma_sub_index_of, lemma_subs_push, lemma_subs_remove,
    needs_bridge, request_step, sub_index_of, subscribe_step, subscribed, wf_subs, ActionModel,
    SubModel,
};

verus! {

/// 1 when the session holds `room`, else 0.
pub open spec fn holds(subs: Seq<SubModel>, room: Seq<char>) -> nat {
    if subscribed(subs, room) {
        1nat
    } else {
        0nat
    }
}

/// How many of the sessions currently hold `room`, i.e. how many live
/// forwarding tasks exist for it across all sessions.
pub open spec fn num_subscribed(sessions: Seq<Seq<SubModel>>, room: Seq<char>) -> nat
    decreases sessions.len(),
{
    if sessions.len() == 0 {
        0
    } else {
        holds(sessions[0], room) + num_subscribed(sessions.drop_first(), room)
    }
}

/// The registry agrees with the sessions: for every room, its subscriber
/// count equals the number of sessions holding a forwarding task for it.
pub open spec fn counts_consistent(reg: RegistryModel, sessions: Seq<Seq<SubModel>>) -> bool {
    forall|room: Seq<char>|
        #[trigger] count_at(reg.rooms, room) == num_subscribed(sessions, room)
}

/// Replacing one session's held rooms changes the tally of a room by the
/// difference that session makes for it.
proof fn lemma_num_subscribed_update(
    sessions: Seq<Seq<SubModel>>,
    i: int,
    subs2: Seq<SubModel>,
    room: Seq<char>,
)
    requires
        0 <= i < sessions.len(),
    ensures
        num_subscribed(sessions.update(i, subs2), room) + holds(sessions[i], room)
            == num_subscribed(sessions, room) + holds(subs2, room),
    decreases sessions.len(),
{
    let up = sessions.update(i, subs2);
    if i == 0 {
        assert(up[0] == subs2);
        assert(up.drop_first() =~= sessions.drop_first());
    } else {
        assert(up[0] == sessions[0]);
        assert(up.drop_first() =~= sessions.drop_first().update(i - 1, subs2));
        lemma_num_subscribed_update(sessions.drop_first(), i - 1, subs2, room);
    }
}

/// A session that holds a room contributes to its tally.
proof fn lemma_num_subscribed_at_least(sessions: Seq<Seq<SubModel>>, i: int, room: Seq<char>)
    requires
        0 <= i < sessions.len(),
        subscribed(sessions[i], room),
    ensures
        num_subscribed(sessions, room) >= 1,
    decreases sessions.len(),
{
    if i > 0 {
        lemma_num_subscribed_at_least(sessions.drop_first(), i - 1, room);
    }
}

/// A relay starts consistent: no rooms, no sessions, every count 0.
pub proof fn lemma_initial_state_consistent()
    ensures
        counts_consistent(
            RegistryModel { rooms: Seq::empty(), fresh: 0 },
            Seq::<Seq<SubModel>>::empty(),
        ),
{
}

/// Appending an empty session leaves every room's tally unchanged.
proof fn lemma_num_subscribed_arrival(sessions: Seq<Seq<SubModel>>, room: Seq<char>)
    ensures
        num_subscribed(sessions.push(Seq::<SubModel>::empty()), room) == num_subscribed(
            sessions,
            room,
        ),
    decreases sessions.len(),
{
    let p = sessions.push(Seq::<SubModel>::empty());
    if sessions.len() == 0 {
        assert(p[0] =~= Seq::<SubModel>::empty());
        assert(sub_index_of(p[0], room) == -1);
        assert(p.drop_first() =~= Seq::<Seq<SubModel>>::empty());
        assert(num_subscribed(p.drop_first(), room) == 0);
    } else {
        assert(p[0] == sessions[0]);
        assert(p.drop_first() =~= sessions.drop_first().push(Seq::<SubModel>::empty()));
        lemma_num_subscribed_arrival(sessions.drop_first(), room);
    }
}

/// A newly connected session holds nothing, so its arrival keeps the
/// registry consistent with the sessions.
pub proof fn lemma_session_arrival_preserves_consistency(
    reg: RegistryModel,
    sessions: Seq<Seq<SubModel>>,
)
    requires
        counts_consistent(reg, sessions),
    ensures
        counts_consistent(reg, sessions.push(Seq::<SubModel>::empty())),
{
    assert forall|room: Seq<char>|
        #[trigger] count_at(reg.rooms, room) == num_subscribed(
            sessions.push(Seq::<SubModel>::empty()),
            room,
        ) by {
        lemma_num_subscribed_arrival(sessions, room);
    }
}

/// For every sequence of subscribes and unsubscribes: one session's step
/// keeps the registry's count of each room equal to the number of
/// sessions holding a forwarding task for it.
pub proof fn lemma_request_step_preserves_consistency(
    reg: RegistryModel,
    sessions: Seq<Seq<SubModel>>,
    i: int,
    req: RequestModel,
)
    requires
        wf_model(reg),
        0 <= i < sessions.len(),
        wf_subs(sessions[i]),
        counts_consistent(reg, sessions),
    ensures
        ({
            let s = request_step(reg, sessions[i], req);
            counts_consistent(s.reg, sessions.update(i, s.subs))
        }),
{
    let subs = sessions[i];
    let s = request_step(reg, subs, req);
    let up = sessions.update(i, s.subs);
    match req {
        RequestModel::Subscribe { room } => {
            if subscribed(subs, room) || !has_room(reg.rooms, room) {
                assert(up =~= sessions);
            } else {
                lemma_acquire_props(reg, room);
                let e = SubModel { room, channel: channel_at(s.reg.rooms, room) };
                lemma_subs_push(subs, e);
                assert forall|r: Seq<char>| #[trigger] count_at(s.reg.rooms, r) == num_subscribed(
                    up,
                    r,
                ) by {
                    lemma_num_subscribed_update(sessions, i, s.subs, r);
                }
            }
        },
        RequestModel::Unsubscribe { room } => {
            let idx = sub_index_of(subs, room);
            if idx < 0 {
                assert(up =~= sessions);
            } else {
                lemma_sub_index_of(subs, room);
                lemma_release_props(reg, room);
                lemma_subs_remove(subs, idx);
                lemma_num_subscribed_at_least(sessions, i, room);
                assert forall|r: Seq<char>| #[trigger] count_at(s.reg.rooms, r) == num_subscribed(
                    up,
                    r,
                ) by {
                    lemma_num_subscribed_update(sessions, i, s.subs, r);
                }
            }
        },
        RequestModel::SendMessage { .. } => {
            assert(up =~= sessions);
        },
    }
}

/// Completing a subscribe — with the bus bridge started or failed —
/// keeps the registry's count of each room equal to the number of
/// sessions holding a forwarding task for it: a started bridge adds one
/// room and one holder, a failed one adds neither.
pub proof fn lemma_complete_subscribe_preserves_consistency(
    reg: RegistryModel,
    sessions: Seq<Seq<SubModel>>,
    i: int,
    room: Seq<char>,
    started: bool,
)
    requires
        wf_model(reg),
        0 <= i < sessions.len(),
        wf_subs(sessions[i]),
        !subscribed(sessions[i], room),
        counts_consistent(reg, sessions),
    ensures
        ({
            let s = bridge_outcome_step(reg, sessions[i], room, started);
            counts_consistent(s.reg, sessions.update(i, s.subs))
        }),
{
    let subs = sessions[i];
    let s = bridge_outcome_step(reg, subs, room, started);
    let up = sessions.update(i, s.subs);
    if started {
        lemma_acquire_props(reg, room);
        let e = SubModel { room, channel: channel_at(s.reg.rooms, room) };
        lemma_subs_push(subs, e);
        assert forall|r: Seq<char>| #[trigger] count_at(s.reg.rooms, r) == num_subscribed(
            up,
            r,
        ) by {
            lemma_num_subscribed_update(sessions, i, s.subs, r);
        }
    } else {
        assert(up =~= sessions);
    }
}

/// Disconnecting one session keeps the registry's counts equal to the
/// sessions' held rooms: afterwards the session holds nothing and every
/// room it held counts one subscriber fewer.
pub proof fn lemma_disconnect_preserves_consistency(
    reg: RegistryModel,
    sessions: Seq<Seq<SubModel>>,
    i: int,
)
    requires
        wf_model(reg),
        0 <= i < sessions.len(),
        wf_subs(sessions[i]),
        counts_consistent(reg, sessions),
    ensures
        counts_consistent(
            disconnect_step(reg, sessions[i]).reg,
            sessions.update(i, Seq::<SubModel>::empty()),
        ),
    decreases sessions[i].len(),
{
    let subs = sessions[i];
    if subs.len() == 0 {
        assert(sessions.update(i, Seq::<SubModel>::empty()) =~~= sessions);
    } else {
        let room = subs[0].room;
        let s = request_step(reg, subs, RequestModel::Unsubscribe { room });
        lemma_request_step_preserves_consistency(
            reg,
            sessions,
            i,
            RequestModel::Unsubscribe { room },
        );
        lemma_subs_remove(subs, 0);
        assert(s.subs =~= subs.drop_first());
        lemma_release_props(reg, room);
        let sessions1 = sessions.update(i, subs.drop_first());
        assert(sessions1[i] =~= subs.drop_first());
        lemma_disconnect_preserves_consistency(s.reg, sessions1, i);
        assert(sessions1.update(i, Seq::<SubModel>::empty()) =~= sessions.update(
            i,
            Seq::<SubModel>::empty(),
        ));
    }
}

/// How many forwarding tasks a list of actions stops.
pub open spec fn stop_forwarder_count(actions: Seq<ActionModel>) -> nat
    decreases actions.len(),
{
    if actions.len() == 0 {
        0
    } else {
        (if actions[0] is StopForwarder {
            1nat
        } else {
            0nat
        }) + stop_forwarder_count(actions.drop_first())
    }
}

/// How many forwarding tasks a list of actions starts.
pub open spec fn start_forwarder_count(actions: Seq<ActionModel>) -> nat
    decreases actions.len(),
{
    if actions.len() == 0 {
        0
    } else {
        (if actions[0] is StartForwarder {
            1nat
        } else {
            0nat
        }) + start_forwarder_count(actions.drop_first())
    }
}

proof fn lemma_stop_count_one(a: ActionModel)
    ensures
        stop_forwarder_count(seq![a]) == if a is StopForwarder {
            1nat
        } else {
            0nat
        },
        start_forwarder_count(seq![a]) == if a is StartForwarder {
            1nat
        } else {
            0nat
        },
{
    assert(seq![a][0] == a);
    assert(seq![a].drop_first() =~= Seq::<ActionModel>::empty());
    assert(stop_forwarder_count(seq![a].drop_first()) == 0);
    assert(start_forwarder_count(seq![a].drop_first()) == 0);
}

proof fn lemma_stop_count_two(a: ActionModel, b: ActionModel)
    ensures
        stop_forwarder_count(seq![a, b]) == (if a is StopForwarder {
            1nat
        } else {
            0nat
        }) + (if b is StopForwarder {
            1nat
        } else {
            0nat
        }),
        start_forwarder_count(seq![a, b]) == (if a is StartForwarder {
            1nat
        } else {
            0nat
        }) + (if b is StartForwarder {
            1nat
        } else {
            0nat
        }),
{
    assert(seq![a, b][0] == a);
    assert(seq![a, b].drop_first() =~= seq![b]);
    lemma_stop_count_one(b);
}

proof fn lemma_stop_count_concat(a: Seq<ActionModel>, b: Seq<ActionModel>)
    ensures
        stop_forwarder_count(a + b) == stop_forwarder_count(a) + stop_forwarder_count(b),
    decreases a.len(),
{
    if a.len() == 0 {
        assert(a + b =~= b);
    } else {
        assert((a + b).drop_first() =~= a.drop_first() + b);
        assert((a + b)[0] == a[0]);
        lemma_stop_count_concat(a.drop_first(), b);
    }
}

/// Disconnecting a session that holds N rooms stops exactly N forwarding
/// tasks — none is leaked — and releases each held room exactly once:
/// its count drops by one while every other room's count stands.
pub proof fn lemma_disconnect_releases(reg: RegistryModel, subs: Seq<SubModel>)
    requires
        wf_model(reg),
        wf_subs(subs),
        forall|r: Seq<char>| subscribed(subs, r) ==> #[trigger] count_at(reg.rooms, r) >= 1,
    ensures
        stop_forwarder_count(disconnect_step(reg, subs).actions) == subs.len(),
        forall|r: Seq<char>|
            #[trigger] count_at(disconnect_step(reg, subs).reg.rooms, r) == if subscribed(subs, r) {
                (count_at(reg.rooms, r) - 1) as nat
            } else {
                count_at(reg.rooms, r)
            },
        wf_model(disconnect_step(reg, subs).reg),
    decreases subs.len(),
{
    if subs.len() == 0 {
    } else {
        let room = subs[0].room;
        let reg1 = crate::registry::release_spec(reg, room);
        lemma_release_props(reg, room);
        lemma_subs_remove(subs, 0);
        assert(subs.remove(0) =~= subs.drop_first());
        assert forall|r: Seq<char>| subscribed(subs.drop_first(), r) implies #[trigger] count_at(
            reg1.rooms,
            r,
        ) >= 1 by {
            if r != room {
                lemma_sub_index_of(subs, r);
            }
        }
        lemma_disconnect_releases(reg1, subs.drop_first());
        let acts = if count_at(reg.rooms, room) == 1 {
            seq![
                ActionModel::StopForwarder { room },
                ActionModel::StopBridge { room, channel: channel_at(reg.rooms, room) },
            ]
        } else {
            seq![ActionModel::StopForwarder { room }]
        };
        lemma_stop_count_concat(acts, disconnect_step(reg1, subs.drop_first()).actions);
        if count_at(reg.rooms, room) == 1 {
            lemma_stop_count_two(
                ActionModel::StopForwarder { room },
                ActionModel::StopBridge { room, channel: channel_at(reg.rooms, room) },
            );
        } else {
            lemma_stop_count_one(ActionModel::StopForwarder { room });
        }
        assert forall|r: Seq<char>|
            true implies #[trigger] count_at(disconnect_step(reg, subs).reg.rooms, r)
            == if subscribed(subs, r) {
            (count_at(reg.rooms, r) - 1) as nat
        } else {
            count_at(reg.rooms, r)
        } by {
            if r != room {
                lemma_sub_index_of(subs, r);
                lemma_sub_index_of(subs.drop_first(), r);
                if subscribed(subs, r) {
                    let j = sub_index_of(subs, r);
                    assert(subs.drop_first()[j - 1] == subs[j]);
                }
                if subscribed(subs.drop_first(), r) {
                    let j = sub_index_of(subs.drop_first(), r);
                    assert(subs.drop_first()[j] == subs[j + 1]);
                }
            }
        }
    }
}

/// Subscribing a session twice to the same room is idempotent: the
/// first subscribe — joining a live room, or creating it once its
/// bridge started — starts exactly one forwarding task and raises the
/// room's count by exactly one; the second changes neither the registry
/// nor the session, demands no action, and asks for no bridge.
pub proof fn lemma_subscribe_idempotent(reg: RegistryModel, subs: Seq<SubModel>, room: Seq<char>)
    requires
        wf_model(reg),
        wf_subs(subs),
        !subscribed(subs, room),
    ensures
        ({
            let s1 = if has_room(reg.rooms, room) {
                subscribe_step(reg, subs, room)
            } else {
                bridge_outcome_step(reg, subs, room, true)
            };
            let s2 = subscribe_step(s1.reg, s1.subs, room);
            &&& count_at(s1.reg.rooms, room) == count_at(reg.rooms, room) + 1
            &&& start_forwarder_count(s1.actions) == 1
            &&& s2.reg == s1.reg
            &&& s2.subs == s1.subs
            &&& s2.actions == Seq::<ActionModel>::empty()
            &&& !needs_bridge(s1.reg, s1.subs, RequestModel::Subscribe { room })
        }),
{
    lemma_acquire_props(reg, room);
    let s1 = if has_room(reg.rooms, room) {
        subscribe_step(reg, subs, room)
    } else {
        bridge_outcome_step(reg, subs, room, true)
    };
    let e = SubModel { room, channel: channel_at(s1.reg.rooms, room) };
    lemma_subs_push(subs, e);
    let chan = channel_at(s1.reg.rooms, room);
    if has_room(reg.rooms, room) {
        lemma_stop_count_one(ActionModel::StartForwarder { room, channel: chan });
    } else {
        lemma_stop_count_two(
            ActionModel::AttachBridge { room, channel: chan },
            ActionModel::StartForwarder { room, channel: chan },
        );
    }
}

/// The set of sessions a message published to `room` is delivered to:
/// exactly those currently holding the room, and no session that holds
/// only other rooms. Each session's forwarding decision is
/// `Session::deliver`; this states the fan-out over all sessions.
pub open spec fn recipients(sessions: Seq<Seq<SubModel>>, room: Seq<char>) -> Set<int> {
    Set::new(|i: int| 0 <= i < sessions.len() && subscribed(sessions[i], room))
}

/// A session receives a room's traffic if and only if it holds the room:
/// no held room misses a delivery, and holding only other rooms never
/// yields one.
pub proof fn lemma_delivery_targets(sessions: Seq<Seq<SubModel>>, room: Seq<char>)
    ensures
        forall|i: int|
            #[trigger] recipients(sessions, room).contains(i) <==> (0 <= i < sessions.len()
                && subscribed(sessions[i], room)),
{
}

} // verus!
