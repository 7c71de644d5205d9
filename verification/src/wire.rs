//! The messages of the session protocol as JSON: an object with the kind
//! under `type` and, for the kinds that carry something, the fields under
//! `data`.

use crate::json::{
    find_member, lemma_items_view, lemma_members_view, member_at, Json, JsonView,
};
use crate::protocol;
use crate::protocol::{BlockStateView, Downstream, Patch, PatchView, SceneryObject, Upstream};
use crate::strmap::{distinct_keys, lemma_map_of_push, map_of, StrMap};
use crate::text::is_text;
use vstd::prelude::*;
use vstd::string::*;

verus! {

/// The value of the last member called `name`.
pub open spec fn field(members: Seq<(Seq<char>, JsonView)>, name: Seq<char>) -> Option<JsonView> {
    match member_at(members, name, members.len() as int) {
        Some(i) => Some(members[i].1),
        None => None,
    }
}

/// What an upstream message says.
pub enum UpstreamV {
    Heartbeat,
    HeartbeatAck,
    Close,
    StateUpdate { object_id: Seq<char>, state: bool },
    SharedStateUpdate { patch: JsonView },
}

/// What a downstream message says.
pub enum DownstreamV {
    Heartbeat,
    HeartbeatAck,
    Close,
    Error { message: Seq<char> },
    ControllerConnect { controller_id: Seq<char> },
    ControllerDisconnect { controller_id: Seq<char> },
    InitialState { connection_type: Seq<char>, scenery: Seq<(Seq<char>, bool)>, patch: JsonView },
    StateUpdate { object_id: Seq<char>, state: bool, controller_id: Seq<char> },
    SharedStateUpdate { patch: JsonView, controller_id: Seq<char> },
    Other,
}

/// The objects of a list by identifier and state.
pub open spec fn scenery_view(list: Seq<SceneryObject>) -> Seq<(Seq<char>, bool)> {
    Seq::new(list.len(), |i: int| (list[i].id@, list[i].state))
}

/// What an upstream message with a raw patch says.
pub open spec fn upstream_view(m: Upstream<Json>) -> UpstreamV {
    match m {
        Upstream::Heartbeat => UpstreamV::Heartbeat,
        Upstream::HeartbeatAck => UpstreamV::HeartbeatAck,
        Upstream::Close => UpstreamV::Close,
        Upstream::StateUpdate { object_id, state } => UpstreamV::StateUpdate {
            object_id: object_id@,
            state,
        },
        Upstream::SharedStateUpdate { patch } => UpstreamV::SharedStateUpdate { patch: patch@ },
    }
}

/// What a downstream message with a raw patch says.
pub open spec fn downstream_view(m: Downstream<Json>) -> DownstreamV {
    match m {
        Downstream::Heartbeat => DownstreamV::Heartbeat,
        Downstream::HeartbeatAck => DownstreamV::HeartbeatAck,
        Downstream::Close => DownstreamV::Close,
        Downstream::Error { message } => DownstreamV::Error { message: message@ },
        Downstream::ControllerConnect { controller_id } => DownstreamV::ControllerConnect {
            controller_id: controller_id@,
        },
        Downstream::ControllerDisconnect { controller_id } => DownstreamV::ControllerDisconnect {
            controller_id: controller_id@,
        },
        Downstream::InitialState { connection_type, scenery, patch } => DownstreamV::InitialState {
            connection_type: connection_type@,
            scenery: scenery_view(scenery@),
            patch: patch@,
        },
        Downstream::StateUpdate { object_id, state, controller_id } => DownstreamV::StateUpdate {
            object_id: object_id@,
            state,
            controller_id: controller_id@,
        },
        Downstream::SharedStateUpdate { patch, controller_id } => DownstreamV::SharedStateUpdate {
            patch: patch@,
            controller_id: controller_id@,
        },
        Downstream::Other => DownstreamV::Other,
    }
}

/// A message of the kind `kind` that carries nothing.
pub open spec fn bare(kind: Seq<char>) -> JsonView {
    JsonView::Object(seq![("type"@, JsonView::Text(kind))])
}

/// A message of the kind `kind` that carries `data`.
pub open spec fn carrying(kind: Seq<char>, data: Seq<(Seq<char>, JsonView)>) -> JsonView {
    JsonView::Object(seq![("type"@, JsonView::Text(kind)), ("data"@, JsonView::Object(data))])
}

/// The JSON form of an upstream message.
pub open spec fn upstream_json(m: UpstreamV) -> JsonView {
    match m {
        UpstreamV::Heartbeat => bare("HEARTBEAT"@),
        UpstreamV::HeartbeatAck => bare("HEARTBEAT_ACK"@),
        UpstreamV::Close => bare("CLOSE"@),
        UpstreamV::StateUpdate { object_id, state } => carrying(
            "STATE_UPDATE"@,
            seq![("objectId"@, JsonView::Text(object_id)), ("state"@, JsonView::Bool(state))],
        ),
        UpstreamV::SharedStateUpdate { patch } => carrying(
            "SHARED_STATE_UPDATE"@,
            seq![("sharedStatePatch"@, patch)],
        ),
    }
}

/// The JSON form of a list of scenery objects.
pub open spec fn scenery_json(list: Seq<(Seq<char>, bool)>) -> Seq<JsonView> {
    Seq::new(
        list.len(),
        |i: int|
            JsonView::Object(
                seq![("id"@, JsonView::Text(list[i].0)), ("state"@, JsonView::Bool(list[i].1))],
            ),
    )
}

/// The JSON form of a downstream message.
pub open spec fn downstream_json(m: DownstreamV) -> JsonView {
    match m {
        DownstreamV::Heartbeat => bare("HEARTBEAT"@),
        DownstreamV::HeartbeatAck => bare("HEARTBEAT_ACK"@),
        DownstreamV::Close => bare("CLOSE"@),
        DownstreamV::Error { message } => carrying(
            "ERROR"@,
            seq![("message"@, JsonView::Text(message))],
        ),
        DownstreamV::ControllerConnect { controller_id } => carrying(
            "CONTROLLER_CONNECT"@,
            seq![("controllerId"@, JsonView::Text(controller_id))],
        ),
        DownstreamV::ControllerDisconnect { controller_id } => carrying(
            "CONTROLLER_DISCONNECT"@,
            seq![("controllerId"@, JsonView::Text(controller_id))],
        ),
        DownstreamV::InitialState { connection_type, scenery, patch } => carrying(
            "INITIAL_STATE"@,
            seq![
                ("connectionType"@, JsonView::Text(connection_type)),
                ("objects"@, JsonView::Array(scenery_json(scenery))),
                ("sharedState"@, patch),
            ],
        ),
        DownstreamV::StateUpdate { object_id, state, controller_id } => carrying(
            "STATE_UPDATE"@,
            seq![
                ("objectId"@, JsonView::Text(object_id)),
                ("state"@, JsonView::Bool(state)),
                ("controllerId"@, JsonView::Text(controller_id)),
            ],
        ),
        DownstreamV::SharedStateUpdate { patch, controller_id } => carrying(
            "SHARED_STATE_UPDATE"@,
            seq![("sharedStatePatch"@, patch), ("controllerId"@, JsonView::Text(controller_id))],
        ),
        DownstreamV::Other => bare("OTHER"@),
    }
}

/// The text of a member that must be text.
pub open spec fn text_field(members: Seq<(Seq<char>, JsonView)>, name: Seq<char>) -> Option<
    Seq<char>,
> {
    match field(members, name) {
        Some(JsonView::Text(t)) => Some(t),
        _ => None,
    }
}

/// The value of a member that must be true or false.
pub open spec fn bool_field(members: Seq<(Seq<char>, JsonView)>, name: Seq<char>) -> Option<bool> {
    match field(members, name) {
        Some(JsonView::Bool(b)) => Some(b),
        _ => None,
    }
}

/// The members under `data`, where `data` is an object.
pub open spec fn data_of(members: Seq<(Seq<char>, JsonView)>) -> Option<Seq<(Seq<char>, JsonView)>> {
    match field(members, "data"@) {
        Some(JsonView::Object(d)) => Some(d),
        _ => None,
    }
}

/// The upstream message that a JSON value is, if it is one: an object
/// whose `type` is a known kind and whose `data` holds the fields of the
/// kind with values of the right sort.
pub open spec fn upstream_of(j: JsonView) -> Option<UpstreamV> {
    match j {
        JsonView::Object(m) => match text_field(m, "type"@) {
            Some(kind) => if kind == "HEARTBEAT"@ {
                Some(UpstreamV::Heartbeat)
            } else if kind == "HEARTBEAT_ACK"@ {
                Some(UpstreamV::HeartbeatAck)
            } else if kind == "CLOSE"@ {
                Some(UpstreamV::Close)
            } else if kind == "STATE_UPDATE"@ {
                match data_of(m) {
                    Some(d) => match (text_field(d, "objectId"@), bool_field(d, "state"@)) {
                        (Some(object_id), Some(state)) => Some(
                            UpstreamV::StateUpdate { object_id, state },
                        ),
                        _ => None,
                    },
                    None => None,
                }
            } else if kind == "SHARED_STATE_UPDATE"@ {
                match data_of(m) {
                    Some(d) => match field(d, "sharedStatePatch"@) {
                        Some(patch) => Some(UpstreamV::SharedStateUpdate { patch }),
                        None => None,
                    },
                    None => None,
                }
            } else {
                None
            },
            None => None,
        },
        _ => None,
    }
}

/// The scenery objects that the first `len` items are, if all of them are.
pub open spec fn scenery_of(items: Seq<JsonView>, len: int) -> Option<Seq<(Seq<char>, bool)>>
    decreases len,
{
    if len <= 0 {
        Some(Seq::empty())
    } else {
        match (scenery_of(items, len - 1), items[len - 1]) {
            (Some(before), JsonView::Object(m)) => match (
                text_field(m, "id"@),
                bool_field(m, "state"@),
            ) {
                (Some(id), Some(state)) => Some(before.push((id, state))),
                _ => None,
            },
            _ => None,
        }
    }
}

/// The downstream message that a JSON value is, if it is one. A kind that
/// is not known gives `Other`.
pub open spec fn downstream_of(j: JsonView) -> Option<DownstreamV> {
    match j {
        JsonView::Object(m) => match text_field(m, "type"@) {
            Some(kind) => if kind == "HEARTBEAT"@ {
                Some(DownstreamV::Heartbeat)
            } else if kind == "HEARTBEAT_ACK"@ {
                Some(DownstreamV::HeartbeatAck)
            } else if kind == "CLOSE"@ {
                Some(DownstreamV::Close)
            } else if kind == "ERROR"@ {
                match data_of(m) {
                    Some(d) => match text_field(d, "message"@) {
                        Some(message) => Some(DownstreamV::Error { message }),
                        None => None,
                    },
                    None => None,
                }
            } else if kind == "CONTROLLER_CONNECT"@ {
                match data_of(m) {
                    Some(d) => match text_field(d, "controllerId"@) {
                        Some(controller_id) => Some(DownstreamV::ControllerConnect { controller_id }),
                        None => None,
                    },
                    None => None,
                }
            } else if kind == "CONTROLLER_DISCONNECT"@ {
                match data_of(m) {
                    Some(d) => match text_field(d, "controllerId"@) {
                        Some(controller_id) => Some(
                            DownstreamV::ControllerDisconnect { controller_id },
                        ),
                        None => None,
                    },
                    None => None,
                }
            } else if kind == "INITIAL_STATE"@ {
                match data_of(m) {
                    Some(d) => match (
                        text_field(d, "connectionType"@),
                        field(d, "objects"@),
                        field(d, "sharedState"@),
                    ) {
                        (Some(connection_type), Some(JsonView::Array(items)), Some(patch)) => match scenery_of(
                            items,
                            items.len() as int,
                        ) {
                            Some(scenery) => Some(
                                DownstreamV::InitialState { connection_type, scenery, patch },
                            ),
                            None => None,
                        },
                        _ => None,
                    },
                    None => None,
                }
            } else if kind == "STATE_UPDATE"@ {
                match data_of(m) {
                    Some(d) => match (
                        text_field(d, "objectId"@),
                        bool_field(d, "state"@),
                        text_field(d, "controllerId"@),
                    ) {
                        (Some(object_id), Some(state), Some(controller_id)) => Some(
                            DownstreamV::StateUpdate { object_id, state, controller_id },
                        ),
                        _ => None,
                    },
                    None => None,
                }
            } else if kind == "SHARED_STATE_UPDATE"@ {
                match data_of(m) {
                    Some(d) => match (field(d, "sharedStatePatch"@), text_field(d, "controllerId"@)) {
                        (Some(patch), Some(controller_id)) => Some(
                            DownstreamV::SharedStateUpdate { patch, controller_id },
                        ),
                        _ => None,
                    },
                    None => None,
                }
            } else {
                Some(DownstreamV::Other)
            },
            None => None,
        },
        _ => None,
    }
}

/// Whether `kind` is one of the kinds of downstream messages.
pub open spec fn known_kind(kind: Seq<char>) -> bool {
    kind == "HEARTBEAT"@ || kind == "HEARTBEAT_ACK"@ || kind == "CLOSE"@ || kind == "ERROR"@
        || kind == "CONTROLLER_CONNECT"@ || kind == "CONTROLLER_DISCONNECT"@ || kind
        == "INITIAL_STATE"@ || kind == "STATE_UPDATE"@ || kind == "SHARED_STATE_UPDATE"@
}

/// An object whose `type` is text but none of the known kinds is read as
/// `Other`, whatever else it holds.
pub proof fn lemma_unknown_kind_is_other(members: Seq<(Seq<char>, JsonView)>, kind: Seq<char>)
    requires
        text_field(members, "type"@) == Some(kind),
        !known_kind(kind),
    ensures
        downstream_of(JsonView::Object(members)) == Some(DownstreamV::Other),
{
}

/// The names of the kinds and of the fields are all different where they
/// meet.
pub proof fn lemma_names()
    ensures
        "type"@ != "data"@,
        "objectId"@ != "state"@,
        "objectId"@ != "controllerId"@,
        "state"@ != "controllerId"@,
        "sharedStatePatch"@ != "controllerId"@,
        "connectionType"@ != "objects"@,
        "connectionType"@ != "sharedState"@,
        "objects"@ != "sharedState"@,
        "id"@ != "state"@,
        "HEARTBEAT"@ != "HEARTBEAT_ACK"@,
        "HEARTBEAT"@ != "CLOSE"@,
        "HEARTBEAT"@ != "STATE_UPDATE"@,
        "HEARTBEAT"@ != "SHARED_STATE_UPDATE"@,
        "HEARTBEAT"@ != "ERROR"@,
        "HEARTBEAT"@ != "CONTROLLER_CONNECT"@,
        "HEARTBEAT"@ != "CONTROLLER_DISCONNECT"@,
        "HEARTBEAT"@ != "INITIAL_STATE"@,
        "HEARTBEAT"@ != "OTHER"@,
        "HEARTBEAT_ACK"@ != "CLOSE"@,
        "HEARTBEAT_ACK"@ != "STATE_UPDATE"@,
        "HEARTBEAT_ACK"@ != "SHARED_STATE_UPDATE"@,
        "HEARTBEAT_ACK"@ != "ERROR"@,
        "HEARTBEAT_ACK"@ != "CONTROLLER_CONNECT"@,
        "HEARTBEAT_ACK"@ != "CONTROLLER_DISCONNECT"@,
        "HEARTBEAT_ACK"@ != "INITIAL_STATE"@,
        "HEARTBEAT_ACK"@ != "OTHER"@,
        "CLOSE"@ != "STATE_UPDATE"@,
        "CLOSE"@ != "SHARED_STATE_UPDATE"@,
        "CLOSE"@ != "ERROR"@,
        "CLOSE"@ != "CONTROLLER_CONNECT"@,
        "CLOSE"@ != "CONTROLLER_DISCONNECT"@,
        "CLOSE"@ != "INITIAL_STATE"@,
        "CLOSE"@ != "OTHER"@,
        "STATE_UPDATE"@ != "SHARED_STATE_UPDATE"@,
        "STATE_UPDATE"@ != "ERROR"@,
        "STATE_UPDATE"@ != "CONTROLLER_CONNECT"@,
        "STATE_UPDATE"@ != "CONTROLLER_DISCONNECT"@,
        "STATE_UPDATE"@ != "INITIAL_STATE"@,
        "STATE_UPDATE"@ != "OTHER"@,
        "SHARED_STATE_UPDATE"@ != "ERROR"@,
        "SHARED_STATE_UPDATE"@ != "CONTROLLER_CONNECT"@,
        "SHARED_STATE_UPDATE"@ != "CONTROLLER_DISCONNECT"@,
        "SHARED_STATE_UPDATE"@ != "INITIAL_STATE"@,
        "SHARED_STATE_UPDATE"@ != "OTHER"@,
        "ERROR"@ != "CONTROLLER_CONNECT"@,
        "ERROR"@ != "CONTROLLER_DISCONNECT"@,
        "ERROR"@ != "INITIAL_STATE"@,
        "ERROR"@ != "OTHER"@,
        "CONTROLLER_CONNECT"@ != "CONTROLLER_DISCONNECT"@,
        "CONTROLLER_CONNECT"@ != "INITIAL_STATE"@,
        "CONTROLLER_CONNECT"@ != "OTHER"@,
        "CONTROLLER_DISCONNECT"@ != "INITIAL_STATE"@,
        "CONTROLLER_DISCONNECT"@ != "OTHER"@,
        "INITIAL_STATE"@ != "OTHER"@,
        "profile"@ != "nodes"@,
        "profile"@ != "blocks"@,
        "nodes"@ != "blocks"@,
        "clear"@ != "relax"@,
{
    reveal_strlit("type");
    reveal_strlit("data");
    reveal_strlit("objectId");
    reveal_strlit("state");
    reveal_strlit("controllerId");
    reveal_strlit("sharedStatePatch");
    reveal_strlit("connectionType");
    reveal_strlit("objects");
    reveal_strlit("sharedState");
    reveal_strlit("id");
    reveal_strlit("HEARTBEAT");
    reveal_strlit("HEARTBEAT_ACK");
    reveal_strlit("CLOSE");
    reveal_strlit("STATE_UPDATE");
    reveal_strlit("SHARED_STATE_UPDATE");
    reveal_strlit("ERROR");
    reveal_strlit("CONTROLLER_CONNECT");
    reveal_strlit("CONTROLLER_DISCONNECT");
    reveal_strlit("INITIAL_STATE");
    reveal_strlit("OTHER");
    reveal_strlit("profile");
    reveal_strlit("nodes");
    reveal_strlit("blocks");
    reveal_strlit("clear");
    reveal_strlit("relax");
    assert("type"@.len() == 4);
    assert("data"@.len() == 4);
    assert("objectId"@.len() == 8);
    assert("state"@.len() == 5);
    assert("controllerId"@.len() == 12);
    assert("sharedStatePatch"@.len() == 16);
    assert("connectionType"@.len() == 14);
    assert("objects"@.len() == 7);
    assert("sharedState"@.len() == 11);
    assert("id"@.len() == 2);
    assert("HEARTBEAT"@.len() == 9);
    assert("HEARTBEAT_ACK"@.len() == 13);
    assert("CLOSE"@.len() == 5);
    assert("STATE_UPDATE"@.len() == 12);
    assert("SHARED_STATE_UPDATE"@.len() == 19);
    assert("ERROR"@.len() == 5);
    assert("CONTROLLER_CONNECT"@.len() == 18);
    assert("CONTROLLER_DISCONNECT"@.len() == 21);
    assert("INITIAL_STATE"@.len() == 13);
    assert("OTHER"@.len() == 5);
    assert("profile"@.len() == 7);
    assert("nodes"@.len() == 5);
    assert("blocks"@.len() == 6);
    assert("clear"@.len() == 5);
    assert("relax"@.len() == 5);
    assert("type"@[0] != "data"@[0]);
    assert("HEARTBEAT_ACK"@[0] != "INITIAL_STATE"@[0]);
    assert("CLOSE"@[0] != "ERROR"@[0]);
    assert("CLOSE"@[0] != "OTHER"@[0]);
    assert("ERROR"@[0] != "OTHER"@[0]);
    assert("clear"@[0] != "relax"@[0]);
}

/// Every upstream message is read back from its JSON form.
pub proof fn lemma_upstream_round_trip(m: UpstreamV)
    ensures
        upstream_of(upstream_json(m)) == Some(m),
{
    lemma_names();
    match m {
        UpstreamV::StateUpdate { object_id, state } => {
            let d = seq![("objectId"@, JsonView::Text(object_id)), ("state"@, JsonView::Bool(state))];
            assert(member_at(d, "state"@, 2) == Some(1int));
            assert(member_at(d, "objectId"@, 1) == Some(0int));
            assert(member_at(d, "objectId"@, 2) == Some(0int));
            lemma_envelope("STATE_UPDATE"@, d);
        },
        UpstreamV::SharedStateUpdate { patch } => {
            let d = seq![("sharedStatePatch"@, patch)];
            assert(member_at(d, "sharedStatePatch"@, 1) == Some(0int));
            lemma_envelope("SHARED_STATE_UPDATE"@, d);
        },
        UpstreamV::Heartbeat => {
            lemma_bare("HEARTBEAT"@);
        },
        UpstreamV::HeartbeatAck => {
            lemma_bare("HEARTBEAT_ACK"@);
        },
        UpstreamV::Close => {
            lemma_bare("CLOSE"@);
        },
    }
}

/// The kind of a bare message is found.
pub proof fn lemma_bare(kind: Seq<char>)
    ensures
        bare(kind) matches JsonView::Object(m) && text_field(m, "type"@) == Some(kind),
{
    let m = seq![("type"@, JsonView::Text(kind))];
    assert(member_at(m, "type"@, 1) == Some(0int));
}

/// The kind and the data of a message that carries something are found.
pub proof fn lemma_envelope(kind: Seq<char>, data: Seq<(Seq<char>, JsonView)>)
    ensures
        carrying(kind, data) matches JsonView::Object(m) && text_field(m, "type"@) == Some(kind)
            && data_of(m) == Some(data),
{
    lemma_names();
    let m = seq![("type"@, JsonView::Text(kind)), ("data"@, JsonView::Object(data))];
    assert(member_at(m, "data"@, 2) == Some(1int));
    assert(member_at(m, "type"@, 1) == Some(0int));
    assert(member_at(m, "type"@, 2) == Some(0int));
}

/// A list of scenery objects is read back from its JSON form.
pub proof fn lemma_scenery_round_trip(list: Seq<(Seq<char>, bool)>, len: int)
    requires
        0 <= len <= list.len(),
    ensures
        scenery_of(scenery_json(list), len) == Some(list.take(len)),
    decreases len,
{
    lemma_names();
    if len > 0 {
        lemma_scenery_round_trip(list, len - 1);
        let m = seq![
            ("id"@, JsonView::Text(list[len - 1].0)),
            ("state"@, JsonView::Bool(list[len - 1].1)),
        ];
        assert(scenery_json(list)[len - 1] == JsonView::Object(m));
        assert(member_at(m, "state"@, 2) == Some(1int));
        assert(member_at(m, "id"@, 1) == Some(0int));
        assert(member_at(m, "id"@, 2) == Some(0int));
        assert(list.take(len - 1).push(list[len - 1]) =~= list.take(len));
    } else {
        assert(list.take(0) =~= Seq::empty());
    }
}

/// Every downstream message is read back from its JSON form.
pub proof fn lemma_downstream_round_trip(m: DownstreamV)
    ensures
        downstream_of(downstream_json(m)) == Some(m),
{
    lemma_names();
    match m {
        DownstreamV::Heartbeat => {
            lemma_bare("HEARTBEAT"@);
        },
        DownstreamV::HeartbeatAck => {
            lemma_bare("HEARTBEAT_ACK"@);
        },
        DownstreamV::Close => {
            lemma_bare("CLOSE"@);
        },
        DownstreamV::Other => {
            lemma_bare("OTHER"@);
        },
        DownstreamV::Error { message } => {
            let d = seq![("message"@, JsonView::Text(message))];
            assert(member_at(d, "message"@, 1) == Some(0int));
            lemma_envelope("ERROR"@, d);
        },
        DownstreamV::ControllerConnect { controller_id } => {
            let d = seq![("controllerId"@, JsonView::Text(controller_id))];
            assert(member_at(d, "controllerId"@, 1) == Some(0int));
            lemma_envelope("CONTROLLER_CONNECT"@, d);
        },
        DownstreamV::ControllerDisconnect { controller_id } => {
            let d = seq![("controllerId"@, JsonView::Text(controller_id))];
            assert(member_at(d, "controllerId"@, 1) == Some(0int));
            lemma_envelope("CONTROLLER_DISCONNECT"@, d);
        },
        DownstreamV::InitialState { connection_type, scenery, patch } => {
            let d = seq![
                ("connectionType"@, JsonView::Text(connection_type)),
                ("objects"@, JsonView::Array(scenery_json(scenery))),
                ("sharedState"@, patch),
            ];
            assert(member_at(d, "sharedState"@, 3) == Some(2int));
            assert(member_at(d, "objects"@, 2) == Some(1int));
            assert(member_at(d, "objects"@, 3) == Some(1int));
            assert(member_at(d, "connectionType"@, 1) == Some(0int));
            assert(member_at(d, "connectionType"@, 2) == Some(0int));
            assert(member_at(d, "connectionType"@, 3) == Some(0int));
            lemma_envelope("INITIAL_STATE"@, d);
            lemma_scenery_round_trip(scenery, scenery.len() as int);
            assert(scenery.take(scenery.len() as int) =~= scenery);
        },
        DownstreamV::StateUpdate { object_id, state, controller_id } => {
            let d = seq![
                ("objectId"@, JsonView::Text(object_id)),
                ("state"@, JsonView::Bool(state)),
                ("controllerId"@, JsonView::Text(controller_id)),
            ];
            assert(member_at(d, "controllerId"@, 3) == Some(2int));
            assert(member_at(d, "state"@, 2) == Some(1int));
            assert(member_at(d, "state"@, 3) == Some(1int));
            assert(member_at(d, "objectId"@, 1) == Some(0int));
            assert(member_at(d, "objectId"@, 2) == Some(0int));
            assert(member_at(d, "objectId"@, 3) == Some(0int));
            lemma_envelope("STATE_UPDATE"@, d);
        },
        DownstreamV::SharedStateUpdate { patch, controller_id } => {
            let d = seq![
                ("sharedStatePatch"@, patch),
                ("controllerId"@, JsonView::Text(controller_id)),
            ];
            assert(member_at(d, "controllerId"@, 2) == Some(1int));
            assert(member_at(d, "sharedStatePatch"@, 1) == Some(0int));
            assert(member_at(d, "sharedStatePatch"@, 2) == Some(0int));
            lemma_envelope("SHARED_STATE_UPDATE"@, d);
        },
    }
}

/// The members of a list, each by the text of its name and the meaning of
/// its value.
pub open spec fn members_of(members: Seq<(String, Json)>) -> Seq<(Seq<char>, JsonView)> {
    Seq::new(members.len(), |i: int| (members[i].0@, members[i].1@))
}

/// The object with the members `members`.
pub fn object(members: Vec<(String, Json)>) -> (r: Json)
    ensures
        r@ == JsonView::Object(members_of(members@)),
{
    proof {
        lemma_members_view(members@, members@.len() as int);
        assert(crate::json::members_view(members@, members@.len() as int) =~= members_of(members@));
    }
    Json::Object(members)
}

/// The member called `name` with the value `value`.
pub fn member(name: &str, value: Json) -> (r: (String, Json))
    ensures
        r.0@ == name@,
        r.1 == value,
{
    (String::from_str(name), value)
}

/// The text `s` as a JSON value.
pub fn text(s: &String) -> (r: Json)
    ensures
        r@ == JsonView::Text(s@),
{
    Json::Text(s.clone())
}

/// The value of the last member called `name` of an object's members.
pub fn get_field<'a>(members: &'a Vec<(String, Json)>, name: &str) -> (r: Option<&'a Json>)
    ensures
        match r {
            Some(j) => field(members_of(members@), name@) == Some(j@),
            None => field(members_of(members@), name@) is None,
        },
{
    proof {
        lemma_members_view(members@, members@.len() as int);
        assert(crate::json::members_view(members@, members@.len() as int) =~= members_of(members@));
    }
    let wanted = String::from_str(name);
    match find_member(members, &wanted) {
        Some(i) => Some(&members[i].1),
        None => None,
    }
}

/// The members of `j`, where it is an object.
pub fn as_object(j: &Json) -> (r: Option<&Vec<(String, Json)>>)
    ensures
        match r {
            Some(m) => j@ == JsonView::Object(members_of(m@)),
            None => !(j@ is Object),
        },
{
    match j {
        Json::Object(m) => {
            proof {
                lemma_members_view(m@, m@.len() as int);
                assert(crate::json::members_view(m@, m@.len() as int) =~= members_of(m@));
            }
            Some(m)
        },
        _ => None,
    }
}

fn get_text<'a>(members: &'a Vec<(String, Json)>, name: &str) -> (r: Option<&'a String>)
    ensures
        match r {
            Some(t) => text_field(members_of(members@), name@) == Some(t@),
            None => text_field(members_of(members@), name@) is None,
        },
{
    match get_field(members, name) {
        Some(Json::Text(t)) => Some(t),
        _ => None,
    }
}

fn get_bool(members: &Vec<(String, Json)>, name: &str) -> (r: Option<bool>)
    ensures
        r == bool_field(members_of(members@), name@),
{
    match get_field(members, name) {
        Some(Json::Bool(b)) => Some(*b),
        _ => None,
    }
}

fn get_data<'a>(members: &'a Vec<(String, Json)>) -> (r: Option<&'a Vec<(String, Json)>>)
    ensures
        match r {
            Some(d) => data_of(members_of(members@)) == Some(members_of(d@)),
            None => data_of(members_of(members@)) is None,
        },
{
    match get_field(members, "data") {
        Some(j) => as_object(j),
        None => None,
    }
}

fn bare_message(kind: &str) -> (r: Json)
    ensures
        r@ == bare(kind@),
{
    let mut members: Vec<(String, Json)> = Vec::new();
    members.push(member("type", Json::Text(String::from_str(kind))));
    assert(members_of(members@) =~= seq![("type"@, JsonView::Text(kind@))]);
    object(members)
}

fn carrying_message(kind: &str, data: Vec<(String, Json)>) -> (r: Json)
    ensures
        r@ == carrying(kind@, members_of(data@)),
{
    let mut members: Vec<(String, Json)> = Vec::new();
    members.push(member("type", Json::Text(String::from_str(kind))));
    members.push(member("data", object(data)));
    assert(members_of(members@) =~= seq![
        ("type"@, JsonView::Text(kind@)),
        ("data"@, JsonView::Object(members_of(data@))),
    ]);
    object(members)
}

/// Writes an upstream message as JSON.
pub fn encode_upstream(msg: Upstream<Json>) -> (r: Json)
    ensures
        r@ == upstream_json(upstream_view(msg)),
{
    match msg {
        Upstream::Heartbeat => bare_message("HEARTBEAT"),
        Upstream::HeartbeatAck => bare_message("HEARTBEAT_ACK"),
        Upstream::Close => bare_message("CLOSE"),
        Upstream::StateUpdate { object_id, state } => {
            let mut data: Vec<(String, Json)> = Vec::new();
            data.push(member("objectId", Json::Text(object_id)));
            data.push(member("state", Json::Bool(state)));
            assert(members_of(data@) =~= seq![
                ("objectId"@, JsonView::Text(object_id@)),
                ("state"@, JsonView::Bool(state)),
            ]);
            carrying_message("STATE_UPDATE", data)
        },
        Upstream::SharedStateUpdate { patch } => {
            let mut data: Vec<(String, Json)> = Vec::new();
            data.push(member("sharedStatePatch", patch));
            assert(members_of(data@) =~= seq![("sharedStatePatch"@, patch@)]);
            carrying_message("SHARED_STATE_UPDATE", data)
        },
    }
}

/// Reads an upstream message from JSON; nothing where the value is not one.
pub fn decode_upstream(j: &Json) -> (r: Option<Upstream<Json>>)
    ensures
        match r {
            Some(m) => upstream_of(j@) == Some(upstream_view(m)),
            None => upstream_of(j@) is None,
        },
{
    let m = match as_object(j) {
        Some(m) => m,
        None => {
            return None;
        },
    };
    let kind = match get_text(m, "type") {
        Some(k) => k,
        None => {
            return None;
        },
    };
    if is_text(kind, "HEARTBEAT") {
        Some(Upstream::Heartbeat)
    } else if is_text(kind, "HEARTBEAT_ACK") {
        Some(Upstream::HeartbeatAck)
    } else if is_text(kind, "CLOSE") {
        Some(Upstream::Close)
    } else if is_text(kind, "STATE_UPDATE") {
        match get_data(m) {
            Some(d) => match (get_text(d, "objectId"), get_bool(d, "state")) {
                (Some(object_id), Some(state)) => Some(
                    Upstream::StateUpdate { object_id: object_id.clone(), state },
                ),
                _ => None,
            },
            None => None,
        }
    } else if is_text(kind, "SHARED_STATE_UPDATE") {
        match get_data(m) {
            Some(d) => match get_field(d, "sharedStatePatch") {
                Some(patch) => Some(Upstream::SharedStateUpdate { patch: patch.clone() }),
                None => None,
            },
            None => None,
        }
    } else {
        None
    }
}

fn encode_scenery(list: &Vec<SceneryObject>) -> (r: Json)
    ensures
        r@ == JsonView::Array(scenery_json(scenery_view(list@))),
{
    let mut items: Vec<Json> = Vec::new();
    let mut i: usize = 0;
    while i < list.len()
        invariant
            i <= list.len(),
            items.len() == i,
            forall|k: int|
                0 <= k < i ==> (#[trigger] items[k])@ == scenery_json(scenery_view(list@))[k],
        decreases list.len() - i,
    {
        let mut m: Vec<(String, Json)> = Vec::new();
        m.push(member("id", text(&list[i].id)));
        m.push(member("state", Json::Bool(list[i].state)));
        assert(members_of(m@) =~= seq![
            ("id"@, JsonView::Text(list[i as int].id@)),
            ("state"@, JsonView::Bool(list[i as int].state)),
        ]);
        items.push(object(m));
        i += 1;
    }
    proof {
        lemma_items_view(items@, items@.len() as int);
        assert(crate::json::items_view(items@, items@.len() as int) =~= scenery_json(
            scenery_view(list@),
        ));
    }
    Json::Array(items)
}

fn decode_scenery(items: &Vec<Json>) -> (r: Option<Vec<SceneryObject>>)
    ensures
        match r {
            Some(list) => scenery_of(
                crate::json::items_view(items@, items@.len() as int),
                items@.len() as int,
            ) == Some(scenery_view(list@)),
            None => scenery_of(
                crate::json::items_view(items@, items@.len() as int),
                items@.len() as int,
            ) is None,
        },
{
    let ghost views = crate::json::items_view(items@, items@.len() as int);
    proof {
        lemma_items_view(items@, items@.len() as int);
    }
    let mut list: Vec<SceneryObject> = Vec::new();
    let mut i: usize = 0;
    assert(scenery_view(list@) =~= Seq::empty());
    while i < items.len()
        invariant
            i <= items.len(),
            views == crate::json::items_view(items@, items@.len() as int),
            views.len() == items.len(),
            forall|k: int| 0 <= k < items.len() ==> #[trigger] views[k] == items[k]@,
            scenery_of(views, i as int) == Some(scenery_view(list@)),
        decreases items.len() - i,
    {
        let ghost before = scenery_view(list@);
        assert(views[i as int] == items[i as int]@);
        let m = match as_object(&items[i]) {
            Some(m) => m,
            None => {
                proof {
                    lemma_scenery_fails(views, i as int + 1, items.len() as int);
                }
                return None;
            },
        };
        match (get_text(m, "id"), get_bool(m, "state")) {
            (Some(id), Some(state)) => {
                list.push(SceneryObject { id: id.clone(), state });
                assert(scenery_view(list@) =~= before.push((id@, state)));
            },
            _ => {
                proof {
                    lemma_scenery_fails(views, i as int + 1, items.len() as int);
                }
                return None;
            },
        }
        i += 1;
    }
    Some(list)
}

fn decode_list(items: &Vec<Json>) -> (r: Option<Vec<SceneryObject>>)
    ensures
        match r {
            Some(list) => (Json::Array(*items))@ matches JsonView::Array(v) && scenery_of(
                v,
                v.len() as int,
            ) == Some(scenery_view(list@)),
            None => (Json::Array(*items))@ matches JsonView::Array(v) && scenery_of(
                v,
                v.len() as int,
            ) is None,
        },
{
    proof {
        lemma_items_view(items@, items@.len() as int);
    }
    decode_scenery(items)
}

/// Once an item is no scenery object, the list is none.
pub proof fn lemma_scenery_fails(items: Seq<JsonView>, at: int, len: int)
    requires
        0 <= at <= len,
        scenery_of(items, at) is None,
    ensures
        scenery_of(items, len) is None,
    decreases len - at,
{
    if at < len {
        lemma_scenery_fails(items, at, len - 1);
    }
}

/// Writes a downstream message as JSON.
pub fn encode_downstream(msg: Downstream<Json>) -> (r: Json)
    ensures
        r@ == downstream_json(downstream_view(msg)),
{
    match msg {
        Downstream::Heartbeat => bare_message("HEARTBEAT"),
        Downstream::HeartbeatAck => bare_message("HEARTBEAT_ACK"),
        Downstream::Close => bare_message("CLOSE"),
        Downstream::Other => bare_message("OTHER"),
        Downstream::Error { message } => {
            let mut data: Vec<(String, Json)> = Vec::new();
            data.push(member("message", Json::Text(message)));
            assert(members_of(data@) =~= seq![("message"@, JsonView::Text(message@))]);
            carrying_message("ERROR", data)
        },
        Downstream::ControllerConnect { controller_id } => {
            let mut data: Vec<(String, Json)> = Vec::new();
            data.push(member("controllerId", Json::Text(controller_id)));
            assert(members_of(data@) =~= seq![("controllerId"@, JsonView::Text(controller_id@))]);
            carrying_message("CONTROLLER_CONNECT", data)
        },
        Downstream::ControllerDisconnect { controller_id } => {
            let mut data: Vec<(String, Json)> = Vec::new();
            data.push(member("controllerId", Json::Text(controller_id)));
            assert(members_of(data@) =~= seq![("controllerId"@, JsonView::Text(controller_id@))]);
            carrying_message("CONTROLLER_DISCONNECT", data)
        },
        Downstream::InitialState { connection_type, scenery, patch } => {
            let mut data: Vec<(String, Json)> = Vec::new();
            data.push(member("connectionType", Json::Text(connection_type)));
            data.push(member("objects", encode_scenery(&scenery)));
            data.push(member("sharedState", patch));
            assert(members_of(data@) =~= seq![
                ("connectionType"@, JsonView::Text(connection_type@)),
                ("objects"@, JsonView::Array(scenery_json(scenery_view(scenery@)))),
                ("sharedState"@, patch@),
            ]);
            carrying_message("INITIAL_STATE", data)
        },
        Downstream::StateUpdate { object_id, state, controller_id } => {
            let mut data: Vec<(String, Json)> = Vec::new();
            data.push(member("objectId", Json::Text(object_id)));
            data.push(member("state", Json::Bool(state)));
            data.push(member("controllerId", Json::Text(controller_id)));
            assert(members_of(data@) =~= seq![
                ("objectId"@, JsonView::Text(object_id@)),
                ("state"@, JsonView::Bool(state)),
                ("controllerId"@, JsonView::Text(controller_id@)),
            ]);
            carrying_message("STATE_UPDATE", data)
        },
        Downstream::SharedStateUpdate { patch, controller_id } => {
            let mut data: Vec<(String, Json)> = Vec::new();
            data.push(member("sharedStatePatch", patch));
            data.push(member("controllerId", Json::Text(controller_id)));
            assert(members_of(data@) =~= seq![
                ("sharedStatePatch"@, patch@),
                ("controllerId"@, JsonView::Text(controller_id@)),
            ]);
            carrying_message("SHARED_STATE_UPDATE", data)
        },
    }
}

/// Reads a downstream message from JSON; nothing where the value is not
/// one. A kind that is not known gives `Other`.
pub fn decode_downstream(j: &Json) -> (r: Option<Downstream<Json>>)
    ensures
        match r {
            Some(m) => downstream_of(j@) == Some(downstream_view(m)),
            None => downstream_of(j@) is None,
        },
{
    let m = match as_object(j) {
        Some(m) => m,
        None => {
            return None;
        },
    };
    let kind = match get_text(m, "type") {
        Some(k) => k,
        None => {
            return None;
        },
    };
    if is_text(kind, "HEARTBEAT") {
        Some(Downstream::Heartbeat)
    } else if is_text(kind, "HEARTBEAT_ACK") {
        Some(Downstream::HeartbeatAck)
    } else if is_text(kind, "CLOSE") {
        Some(Downstream::Close)
    } else if is_text(kind, "ERROR") {
        match get_data(m) {
            Some(d) => match get_text(d, "message") {
                Some(message) => Some(Downstream::Error { message: message.clone() }),
                None => None,
            },
            None => None,
        }
    } else if is_text(kind, "CONTROLLER_CONNECT") {
        match get_data(m) {
            Some(d) => match get_text(d, "controllerId") {
                Some(id) => Some(Downstream::ControllerConnect { controller_id: id.clone() }),
                None => None,
            },
            None => None,
        }
    } else if is_text(kind, "CONTROLLER_DISCONNECT") {
        match get_data(m) {
            Some(d) => match get_text(d, "controllerId") {
                Some(id) => Some(Downstream::ControllerDisconnect { controller_id: id.clone() }),
                None => None,
            },
            None => None,
        }
    } else if is_text(kind, "INITIAL_STATE") {
        match get_data(m) {
            Some(d) => match (
                get_text(d, "connectionType"),
                get_field(d, "objects"),
                get_field(d, "sharedState"),
            ) {
                (Some(connection_type), Some(Json::Array(items)), Some(patch)) => match decode_list(
                    items,
                ) {
                    Some(scenery) => Some(
                        Downstream::InitialState {
                            connection_type: connection_type.clone(),
                            scenery,
                            patch: patch.clone(),
                        },
                    ),
                    None => None,
                },
                _ => None,
            },
            None => None,
        }
    } else if is_text(kind, "STATE_UPDATE") {
        match get_data(m) {
            Some(d) => match (
                get_text(d, "objectId"),
                get_bool(d, "state"),
                get_text(d, "controllerId"),
            ) {
                (Some(object_id), Some(state), Some(controller_id)) => Some(
                    Downstream::StateUpdate {
                        object_id: object_id.clone(),
                        state,
                        controller_id: controller_id.clone(),
                    },
                ),
                _ => None,
            },
            None => None,
        }
    } else if is_text(kind, "SHARED_STATE_UPDATE") {
        match get_data(m) {
            Some(d) => match (get_field(d, "sharedStatePatch"), get_text(d, "controllerId")) {
                (Some(patch), Some(controller_id)) => Some(
                    Downstream::SharedStateUpdate {
                        patch: patch.clone(),
                        controller_id: controller_id.clone(),
                    },
                ),
                _ => None,
            },
            None => None,
        }
    } else {
        Some(Downstream::Other)
    }
}

/// The JSON form of a block state: `"clear"`, `"relax"`, or an object whose
/// member `route` lists the two node identifiers.
pub open spec fn block_json(b: BlockStateView) -> JsonView {
    match b {
        BlockStateView::Clear => JsonView::Text("clear"@),
        BlockStateView::Relax => JsonView::Text("relax"@),
        BlockStateView::Route(a, b) => JsonView::Object(
            seq![("route"@, JsonView::Array(seq![JsonView::Text(a), JsonView::Text(b)]))],
        ),
    }
}

/// The block state that a JSON value is, if it is one.
pub open spec fn block_of(j: JsonView) -> Option<BlockStateView> {
    match j {
        JsonView::Text(t) => if t == "clear"@ {
            Some(BlockStateView::Clear)
        } else if t == "relax"@ {
            Some(BlockStateView::Relax)
        } else {
            None
        },
        JsonView::Object(m) => if m.len() == 1 && m[0].0 == "route"@ {
            match m[0].1 {
                JsonView::Array(items) => if items.len() == 2 {
                    match (items[0], items[1]) {
                        (JsonView::Text(a), JsonView::Text(b)) => Some(BlockStateView::Route(a, b)),
                        _ => None,
                    }
                } else {
                    None
                },
                _ => None,
            }
        } else {
            None
        },
        _ => None,
    }
}

/// The members that say the node values `entries`.
pub open spec fn node_members(entries: Seq<(String, bool)>) -> Seq<(Seq<char>, JsonView)> {
    Seq::new(entries.len(), |i: int| (entries[i].0@, JsonView::Bool(entries[i].1)))
}

/// The members that say the block states `entries`.
pub open spec fn block_members(entries: Seq<(String, protocol::BlockState)>) -> Seq<
    (Seq<char>, JsonView),
> {
    Seq::new(entries.len(), |i: int| (entries[i].0@, block_json(entries[i].1@)))
}

/// The JSON form of an optional profile: its text, or null.
pub open spec fn profile_json(profile: Option<String>) -> JsonView {
    match profile {
        Some(s) => JsonView::Text(s@),
        None => JsonView::Null,
    }
}

/// The JSON form of a patch: an object with the members `profile`, `nodes`
/// and `blocks`.
pub open spec fn patch_json(p: Patch) -> JsonView {
    JsonView::Object(
        seq![
            ("profile"@, profile_json(p.profile)),
            ("nodes"@, JsonView::Object(node_members(p.nodes.seq()))),
            ("blocks"@, JsonView::Object(block_members(p.blocks.seq()))),
        ],
    )
}

/// The node values that the first `len` members say, if all of them are
/// true or false; of two members with one name the later counts.
pub open spec fn nodes_of(m: Seq<(Seq<char>, JsonView)>, len: int) -> Option<Map<Seq<char>, bool>>
    decreases len,
{
    if len <= 0 {
        Some(Map::empty())
    } else {
        match (nodes_of(m, len - 1), m[len - 1].1) {
            (Some(before), JsonView::Bool(b)) => Some(before.insert(m[len - 1].0, b)),
            _ => None,
        }
    }
}

/// The block states that the first `len` members say, if all of them are
/// block states.
pub open spec fn blocks_of(m: Seq<(Seq<char>, JsonView)>, len: int) -> Option<
    Map<Seq<char>, BlockStateView>,
>
    decreases len,
{
    if len <= 0 {
        Some(Map::empty())
    } else {
        match (blocks_of(m, len - 1), block_of(m[len - 1].1)) {
            (Some(before), Some(b)) => Some(before.insert(m[len - 1].0, b)),
            _ => None,
        }
    }
}

/// The profile that a patch object names: none where the member is missing
/// or null.
pub open spec fn profile_part(m: Seq<(Seq<char>, JsonView)>) -> Option<Option<Seq<char>>> {
    match field(m, "profile"@) {
        None => Some(None),
        Some(JsonView::Null) => Some(None),
        Some(JsonView::Text(t)) => Some(Some(t)),
        _ => None,
    }
}

/// The node values of a patch object: none where the member is missing.
pub open spec fn nodes_part(m: Seq<(Seq<char>, JsonView)>) -> Option<Map<Seq<char>, bool>> {
    match field(m, "nodes"@) {
        None => Some(Map::empty()),
        Some(JsonView::Object(ms)) => nodes_of(ms, ms.len() as int),
        _ => None,
    }
}

/// The block states of a patch object: none where the member is missing.
pub open spec fn blocks_part(m: Seq<(Seq<char>, JsonView)>) -> Option<
    Map<Seq<char>, BlockStateView>,
> {
    match field(m, "blocks"@) {
        None => Some(Map::empty()),
        Some(JsonView::Object(ms)) => blocks_of(ms, ms.len() as int),
        _ => None,
    }
}

/// The patch that a JSON value is, if it is one.
pub open spec fn patch_of(j: JsonView) -> Option<PatchView> {
    match j {
        JsonView::Object(m) => match (profile_part(m), nodes_part(m), blocks_part(m)) {
            (Some(profile), Some(nodes), Some(blocks)) => Some(PatchView { profile, nodes, blocks }),
            _ => None,
        },
        _ => None,
    }
}

/// A block state is read back from its JSON form.
pub proof fn lemma_block_round_trip(b: BlockStateView)
    ensures
        block_of(block_json(b)) == Some(b),
{
    lemma_names();
}

/// Node values with distinct names are read back from their JSON form.
pub proof fn lemma_nodes_round_trip(entries: Seq<(String, bool)>, len: int)
    requires
        distinct_keys(entries),
        0 <= len <= entries.len(),
    ensures
        nodes_of(node_members(entries), len) == Some(map_of(entries.take(len))),
    decreases len,
{
    if len > 0 {
        lemma_nodes_round_trip(entries, len - 1);
        let head = entries.take(len - 1);
        let e = entries[len - 1];
        assert(entries.take(len) =~= head.push(e));
        if crate::strmap::has_key(head, e.0@) {
            let j = crate::strmap::position_of(head, e.0@);
            assert(entries[j].0@ != entries[len - 1].0@);
        }
        lemma_map_of_push(head, e);
    } else {
        assert(map_of(entries.take(0)) =~= Map::<Seq<char>, bool>::empty());
    }
}

/// Block states with distinct names are read back from their JSON form.
pub proof fn lemma_blocks_round_trip(entries: Seq<(String, protocol::BlockState)>, len: int)
    requires
        distinct_keys(entries),
        0 <= len <= entries.len(),
    ensures
        blocks_of(block_members(entries), len) == Some(map_of(entries.take(len))),
    decreases len,
{
    if len > 0 {
        lemma_blocks_round_trip(entries, len - 1);
        let head = entries.take(len - 1);
        let e = entries[len - 1];
        assert(entries.take(len) =~= head.push(e));
        if crate::strmap::has_key(head, e.0@) {
            let j = crate::strmap::position_of(head, e.0@);
            assert(entries[j].0@ != entries[len - 1].0@);
        }
        lemma_map_of_push(head, e);
        lemma_block_round_trip(e.1@);
    } else {
        assert(map_of(entries.take(0)) =~= Map::<Seq<char>, BlockStateView>::empty());
    }
}

/// Every patch is read back from its JSON form.
pub proof fn lemma_patch_round_trip(p: Patch)
    requires
        p.wf(),
    ensures
        patch_of(patch_json(p)) == Some(p@),
{
    lemma_names();
    let nodes = node_members(p.nodes.seq());
    let blocks = block_members(p.blocks.seq());
    let m = seq![
        ("profile"@, profile_json(p.profile)),
        ("nodes"@, JsonView::Object(nodes)),
        ("blocks"@, JsonView::Object(blocks)),
    ];
    assert(member_at(m, "blocks"@, 3) == Some(2int));
    assert(member_at(m, "nodes"@, 2) == Some(1int));
    assert(member_at(m, "nodes"@, 3) == Some(1int));
    assert(member_at(m, "profile"@, 1) == Some(0int));
    assert(member_at(m, "profile"@, 2) == Some(0int));
    assert(member_at(m, "profile"@, 3) == Some(0int));
    lemma_nodes_round_trip(p.nodes.seq(), p.nodes.seq().len() as int);
    lemma_blocks_round_trip(p.blocks.seq(), p.blocks.seq().len() as int);
    assert(p.nodes.seq().take(p.nodes.seq().len() as int) =~= p.nodes.seq());
    assert(p.blocks.seq().take(p.blocks.seq().len() as int) =~= p.blocks.seq());
}

fn encode_block(b: &protocol::BlockState) -> (r: Json)
    ensures
        r@ == block_json(b@),
{
    match b {
        protocol::BlockState::Clear => Json::Text(String::from_str("clear")),
        protocol::BlockState::Relax => Json::Text(String::from_str("relax")),
        protocol::BlockState::Route((a, b)) => {
            let mut items: Vec<Json> = Vec::new();
            items.push(text(a));
            items.push(text(b));
            proof {
                lemma_items_view(items@, 2);
                assert(crate::json::items_view(items@, 2) =~= seq![
                    JsonView::Text(a@),
                    JsonView::Text(b@),
                ]);
            }
            let mut m: Vec<(String, Json)> = Vec::new();
            m.push(member("route", Json::Array(items)));
            assert(members_of(m@) =~= seq![
                ("route"@, JsonView::Array(seq![JsonView::Text(a@), JsonView::Text(b@)])),
            ]);
            object(m)
        },
    }
}

fn decode_block(j: &Json) -> (r: Option<protocol::BlockState>)
    ensures
        match r {
            Some(b) => block_of(j@) == Some(b@),
            None => block_of(j@) is None,
        },
{
    match j {
        Json::Text(t) => {
            if is_text(t, "clear") {
                Some(protocol::BlockState::Clear)
            } else if is_text(t, "relax") {
                Some(protocol::BlockState::Relax)
            } else {
                None
            }
        },
        Json::Object(m) => {
            proof {
                lemma_members_view(m@, m@.len() as int);
            }
            if m.len() != 1 {
                return None;
            }
            if !is_text(&m[0].0, "route") {
                return None;
            }
            match &m[0].1 {
                Json::Array(items) => {
                    proof {
                        lemma_items_view(items@, items@.len() as int);
                    }
                    if items.len() != 2 {
                        return None;
                    }
                    match (&items[0], &items[1]) {
                        (Json::Text(a), Json::Text(b)) => Some(
                            protocol::BlockState::Route((a.clone(), b.clone())),
                        ),
                        _ => None,
                    }
                },
                _ => None,
            }
        },
        _ => None,
    }
}

/// Writes a patch as JSON.
pub fn patch_to_json(p: &Patch) -> (r: Json)
    requires
        p.wf(),
    ensures
        r@ == patch_json(*p),
{
    let mut nodes: Vec<(String, Json)> = Vec::new();
    let n = p.nodes.len();
    let mut i: usize = 0;
    while i < n
        invariant
            p.nodes.wf(),
            n == p.nodes.seq().len(),
            i <= n,
            nodes.len() == i,
            forall|k: int|
                0 <= k < i ==> (#[trigger] nodes[k]).0@ == p.nodes.seq()[k].0@ && nodes[k].1@
                    == JsonView::Bool(p.nodes.seq()[k].1),
        decreases n - i,
    {
        nodes.push((p.nodes.key_at(i).clone(), Json::Bool(*p.nodes.value_at(i))));
        i += 1;
    }
    assert(members_of(nodes@) =~= node_members(p.nodes.seq()));
    let mut blocks: Vec<(String, Json)> = Vec::new();
    let n = p.blocks.len();
    let mut i: usize = 0;
    while i < n
        invariant
            p.blocks.wf(),
            n == p.blocks.seq().len(),
            i <= n,
            blocks.len() == i,
            forall|k: int|
                0 <= k < i ==> (#[trigger] blocks[k]).0@ == p.blocks.seq()[k].0@ && blocks[k].1@
                    == block_json(p.blocks.seq()[k].1@),
        decreases n - i,
    {
        blocks.push((p.blocks.key_at(i).clone(), encode_block(p.blocks.value_at(i))));
        i += 1;
    }
    assert(members_of(blocks@) =~= block_members(p.blocks.seq()));
    let profile = match &p.profile {
        Some(s) => text(s),
        None => Json::Null,
    };
    assert(profile@ == profile_json(p.profile));
    let mut m: Vec<(String, Json)> = Vec::new();
    m.push(member("profile", profile));
    m.push(member("nodes", object(nodes)));
    m.push(member("blocks", object(blocks)));
    let ghost want = seq![
        ("profile"@, profile_json(p.profile)),
        ("nodes"@, JsonView::Object(node_members(p.nodes.seq()))),
        ("blocks"@, JsonView::Object(block_members(p.blocks.seq()))),
    ];
    assert(members_of(m@) =~= want);
    object(m)
}

/// Once a member is no node value, the members are none.
pub proof fn lemma_nodes_fail(m: Seq<(Seq<char>, JsonView)>, at: int, len: int)
    requires
        0 <= at <= len,
        nodes_of(m, at) is None,
    ensures
        nodes_of(m, len) is None,
    decreases len - at,
{
    if at < len {
        lemma_nodes_fail(m, at, len - 1);
    }
}

/// Once a member is no block state, the members are none.
pub proof fn lemma_blocks_fail(m: Seq<(Seq<char>, JsonView)>, at: int, len: int)
    requires
        0 <= at <= len,
        blocks_of(m, at) is None,
    ensures
        blocks_of(m, len) is None,
    decreases len - at,
{
    if at < len {
        lemma_blocks_fail(m, at, len - 1);
    }
}

fn decode_nodes(m: &Vec<(String, Json)>) -> (r: Option<StrMap<bool>>)
    ensures
        match r {
            Some(map) => map.wf() && nodes_of(members_of(m@), m@.len() as int) == Some(map@),
            None => nodes_of(members_of(m@), m@.len() as int) is None,
        },
{
    let mut map: StrMap<bool> = StrMap::new();
    let mut i: usize = 0;
    while i < m.len()
        invariant
            i <= m.len(),
            map.wf(),
            nodes_of(members_of(m@), i as int) == Some(map@),
        decreases m.len() - i,
    {
        match &m[i].1 {
            Json::Bool(b) => {
                map.insert(m[i].0.clone(), *b);
            },
            _ => {
                proof {
                    lemma_nodes_fail(members_of(m@), i as int + 1, m@.len() as int);
                }
                return None;
            },
        }
        i += 1;
    }
    Some(map)
}

fn decode_blocks(m: &Vec<(String, Json)>) -> (r: Option<StrMap<protocol::BlockState>>)
    ensures
        match r {
            Some(map) => map.wf() && blocks_of(members_of(m@), m@.len() as int) == Some(map@),
            None => blocks_of(members_of(m@), m@.len() as int) is None,
        },
{
    let mut map: StrMap<protocol::BlockState> = StrMap::new();
    let mut i: usize = 0;
    while i < m.len()
        invariant
            i <= m.len(),
            map.wf(),
            blocks_of(members_of(m@), i as int) == Some(map@),
        decreases m.len() - i,
    {
        match decode_block(&m[i].1) {
            Some(b) => {
                map.insert(m[i].0.clone(), b);
            },
            None => {
                proof {
                    lemma_blocks_fail(members_of(m@), i as int + 1, m@.len() as int);
                }
                return None;
            },
        }
        i += 1;
    }
    Some(map)
}

/// Reads a patch from JSON; nothing where the value is not one.
pub fn patch_from_json(j: &Json) -> (r: Option<Patch>)
    ensures
        match r {
            Some(p) => p.wf() && patch_of(j@) == Some(p@),
            None => patch_of(j@) is None,
        },
{
    let m = match as_object(j) {
        Some(m) => m,
        None => {
            return None;
        },
    };
    let profile = match get_field(m, "profile") {
        None => None,
        Some(Json::Null) => None,
        Some(Json::Text(t)) => Some(t.clone()),
        _ => {
            return None;
        },
    };
    let nodes = match get_field(m, "nodes") {
        None => StrMap::new(),
        Some(j) => match as_object(j) {
            Some(ms) => match decode_nodes(ms) {
                Some(map) => map,
                None => {
                    return None;
                },
            },
            None => {
                return None;
            },
        },
    };
    let blocks = match get_field(m, "blocks") {
        None => StrMap::new(),
        Some(j) => match as_object(j) {
            Some(ms) => match decode_blocks(ms) {
                Some(map) => map,
                None => {
                    return None;
                },
            },
            None => {
                return None;
            },
        },
    };
    Some(Patch { profile, nodes, blocks })
}

/// The message with its patch written as JSON.
pub fn upstream_raw(msg: Upstream<Patch>) -> (r: Upstream<Json>)
    requires
        msg matches Upstream::SharedStateUpdate { patch } ==> patch.wf(),
    ensures
        match msg {
            Upstream::Heartbeat => r is Heartbeat,
            Upstream::HeartbeatAck => r is HeartbeatAck,
            Upstream::Close => r is Close,
            Upstream::StateUpdate { object_id, state } => r == (Upstream::<Json>::StateUpdate {
                object_id,
                state,
            }),
            Upstream::SharedStateUpdate { patch } => r matches Upstream::SharedStateUpdate {
                patch: j,
            } && j@ == patch_json(patch),
        },
{
    match msg {
        Upstream::Heartbeat => Upstream::Heartbeat,
        Upstream::HeartbeatAck => Upstream::HeartbeatAck,
        Upstream::Close => Upstream::Close,
        Upstream::StateUpdate { object_id, state } => Upstream::StateUpdate { object_id, state },
        Upstream::SharedStateUpdate { patch } => Upstream::SharedStateUpdate {
            patch: patch_to_json(&patch),
        },
    }
}

/// The message with its patch read from JSON; nothing where the patch is
/// not one.
pub fn downstream_read(msg: Downstream<Json>) -> (r: Option<Downstream<Patch>>)
    ensures
        match msg {
            Downstream::InitialState { connection_type, scenery, patch } => match r {
                Some(m) => {
                    &&& m matches Downstream::InitialState {
                        connection_type: c,
                        scenery: s,
                        patch: p,
                    }
                    &&& c == connection_type
                    &&& s == scenery
                    &&& p.wf()
                    &&& patch_of(patch@) == Some(p@)
                },
                None => patch_of(patch@) is None,
            },
            Downstream::SharedStateUpdate { patch, controller_id } => match r {
                Some(m) => {
                    &&& m matches Downstream::SharedStateUpdate { patch: p, controller_id: c }
                    &&& c == controller_id
                    &&& p.wf()
                    &&& patch_of(patch@) == Some(p@)
                },
                None => patch_of(patch@) is None,
            },
            Downstream::Heartbeat => r matches Some(Downstream::Heartbeat),
            Downstream::HeartbeatAck => r matches Some(Downstream::HeartbeatAck),
            Downstream::Close => r matches Some(Downstream::Close),
            Downstream::Other => r matches Some(Downstream::Other),
            Downstream::Error { message } => r == Some(Downstream::<Patch>::Error { message }),
            Downstream::ControllerConnect { controller_id } => r == Some(
                Downstream::<Patch>::ControllerConnect { controller_id },
            ),
            Downstream::ControllerDisconnect { controller_id } => r == Some(
                Downstream::<Patch>::ControllerDisconnect { controller_id },
            ),
            Downstream::StateUpdate { object_id, state, controller_id } => r == Some(
                Downstream::<Patch>::StateUpdate { object_id, state, controller_id },
            ),
        },
{
    match msg {
        Downstream::Heartbeat => Some(Downstream::Heartbeat),
        Downstream::HeartbeatAck => Some(Downstream::HeartbeatAck),
        Downstream::Close => Some(Downstream::Close),
        Downstream::Other => Some(Downstream::Other),
        Downstream::Error { message } => Some(Downstream::Error { message }),
        Downstream::ControllerConnect { controller_id } => Some(
            Downstream::ControllerConnect { controller_id },
        ),
        Downstream::ControllerDisconnect { controller_id } => Some(
            Downstream::ControllerDisconnect { controller_id },
        ),
        Downstream::InitialState { connection_type, scenery, patch } => match patch_from_json(
            &patch,
        ) {
            Some(p) => Some(Downstream::InitialState { connection_type, scenery, patch: p }),
            None => None,
        },
        Downstream::StateUpdate { object_id, state, controller_id } => Some(
            Downstream::StateUpdate { object_id, state, controller_id },
        ),
        Downstream::SharedStateUpdate { patch, controller_id } => match patch_from_json(&patch) {
            Some(p) => Some(Downstream::SharedStateUpdate { patch: p, controller_id }),
            None => None,
        },
    }
}

} // verus!
