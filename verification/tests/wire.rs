use bars_core::json::Json;
use bars_core::protocol::{BlockState, Downstream, Patch, SceneryObject, Upstream};
use bars_core::strmap::StrMap;
use bars_core::wire::{
    decode_downstream, decode_upstream, downstream_read, encode_downstream, encode_upstream,
    patch_from_json, patch_to_json, upstream_raw,
};
use serde_json::Value;

fn key(s: &str) -> String {
    s.to_string()
}

fn to_value(j: &Json) -> Value {
    match j {
        Json::Null => Value::Null,
        Json::Bool(b) => Value::Bool(*b),
        Json::Number(n) => serde_json::from_str(n).unwrap(),
        Json::Text(t) => Value::String(t.clone()),
        Json::Array(items) => Value::Array(items.iter().map(to_value).collect()),
        Json::Object(members) => {
            Value::Object(members.iter().map(|(k, v)| (k.clone(), to_value(v))).collect())
        },
    }
}

fn from_value(v: &Value) -> Json {
    match v {
        Value::Null => Json::Null,
        Value::Bool(b) => Json::Bool(*b),
        Value::Number(n) => Json::Number(n.to_string()),
        Value::String(s) => Json::Text(s.clone()),
        Value::Array(items) => Json::Array(items.iter().map(from_value).collect()),
        Value::Object(members) => {
            Json::Object(members.iter().map(|(k, v)| (k.clone(), from_value(v))).collect())
        },
    }
}

fn parse(text: &str) -> Json {
    from_value(&serde_json::from_str::<Value>(text).unwrap())
}

fn print(j: &Json) -> String {
    serde_json::to_string(&to_value(j)).unwrap()
}

fn same(a: &Json, b: &Json) -> bool {
    to_value(a) == to_value(b)
}

fn sample_patch() -> Patch {
    let mut nodes = StrMap::new();
    nodes.insert(key("n1"), true);
    nodes.insert(key("n2"), false);
    let mut blocks = StrMap::new();
    blocks.insert(key("b1"), BlockState::Clear);
    blocks.insert(key("b2"), BlockState::Relax);
    blocks.insert(key("b3"), BlockState::Route((key("n1"), key("n2"))));
    Patch { profile: Some(key("day")), nodes, blocks }
}

fn same_patch(a: &Patch, b: &Patch) -> bool {
    a.profile == b.profile
        && a.nodes.len() == b.nodes.len()
        && a.blocks.len() == b.blocks.len()
        && (0..a.nodes.len()).all(|i| b.nodes.get(a.nodes.key_at(i)) == Some(a.nodes.value_at(i)))
        && (0..a.blocks.len()).all(|i| b.blocks.get(a.blocks.key_at(i)) == Some(a.blocks.value_at(i)))
}

#[test]
fn upstream_messages_are_written() {
    assert_eq!(print(&encode_upstream(Upstream::Heartbeat)), r#"{"type":"HEARTBEAT"}"#);
    assert_eq!(print(&encode_upstream(Upstream::HeartbeatAck)), r#"{"type":"HEARTBEAT_ACK"}"#);
    assert_eq!(print(&encode_upstream(Upstream::Close)), r#"{"type":"CLOSE"}"#);
    let m = encode_upstream(Upstream::StateUpdate { object_id: key("gate"), state: true });
    assert!(same(&m, &parse(r#"{"type":"STATE_UPDATE","data":{"objectId":"gate","state":true}}"#)));
    let m = encode_upstream(Upstream::SharedStateUpdate { patch: parse(r#"{"a":1}"#) });
    assert!(same(&m, &parse(r#"{"type":"SHARED_STATE_UPDATE","data":{"sharedStatePatch":{"a":1}}}"#)));
}

#[test]
fn upstream_messages_are_read() {
    assert!(matches!(decode_upstream(&parse(r#"{"type":"HEARTBEAT"}"#)), Some(Upstream::Heartbeat)));
    assert!(matches!(
        decode_upstream(&parse(r#"{"data":null,"type":"HEARTBEAT_ACK"}"#)),
        Some(Upstream::HeartbeatAck)
    ));
    assert!(matches!(decode_upstream(&parse(r#"{"type":"CLOSE"}"#)), Some(Upstream::Close)));
    assert!(matches!(
        decode_upstream(&parse(r#"{"type":"STATE_UPDATE","data":{"state":false,"objectId":"g","x":1}}"#)),
        Some(Upstream::StateUpdate { object_id, state: false }) if object_id == "g"
    ));
    match decode_upstream(&parse(r#"{"type":"SHARED_STATE_UPDATE","data":{"sharedStatePatch":{"a":{"b":[1,"x",null]}}}}"#)) {
        Some(Upstream::SharedStateUpdate { patch }) => {
            assert!(same(&patch, &parse(r#"{"a":{"b":[1,"x",null]}}"#)))
        },
        _ => panic!("not read"),
    }
}

#[test]
fn malformed_upstream_messages_are_refused() {
    for text in [
        "null",
        "[]",
        r#""HEARTBEAT""#,
        "{}",
        r#"{"type":5}"#,
        r#"{"type":"heartbeat"}"#,
        r#"{"type":"NOPE"}"#,
        r#"{"type":"STATE_UPDATE"}"#,
        r#"{"type":"STATE_UPDATE","data":{"objectId":"g"}}"#,
        r#"{"type":"STATE_UPDATE","data":{"objectId":1,"state":true}}"#,
        r#"{"type":"STATE_UPDATE","data":{"objectId":"g","state":"on"}}"#,
        r#"{"type":"SHARED_STATE_UPDATE","data":{}}"#,
        r#"{"type":"SHARED_STATE_UPDATE","data":[]}"#,
        r#"{"type":"ERROR","data":{"message":"x"}}"#,
    ] {
        assert!(decode_upstream(&parse(text)).is_none(), "{}", text);
    }
}

fn downstream_samples() -> Vec<Downstream<Json>> {
    vec![
        Downstream::Heartbeat,
        Downstream::HeartbeatAck,
        Downstream::Close,
        Downstream::Error { message: key("invalid message") },
        Downstream::ControllerConnect { controller_id: key("c1") },
        Downstream::ControllerDisconnect { controller_id: key("c1") },
        Downstream::InitialState {
            connection_type: key("controller"),
            scenery: vec![
                SceneryObject { id: key("gate"), state: true },
                SceneryObject { id: key("bar"), state: false },
            ],
            patch: parse(r#"{"nodes":{"n1":true}}"#),
        },
        Downstream::StateUpdate { object_id: key("gate"), state: true, controller_id: key("c1") },
        Downstream::SharedStateUpdate { patch: parse(r#"{"x":[1,2]}"#), controller_id: key("c2") },
        Downstream::Other,
    ]
}

#[test]
fn downstream_messages_are_written() {
    let texts = [
        r#"{"type":"HEARTBEAT"}"#,
        r#"{"type":"HEARTBEAT_ACK"}"#,
        r#"{"type":"CLOSE"}"#,
        r#"{"type":"ERROR","data":{"message":"invalid message"}}"#,
        r#"{"type":"CONTROLLER_CONNECT","data":{"controllerId":"c1"}}"#,
        r#"{"type":"CONTROLLER_DISCONNECT","data":{"controllerId":"c1"}}"#,
        r#"{"type":"INITIAL_STATE","data":{"connectionType":"controller","objects":[{"id":"gate","state":true},{"id":"bar","state":false}],"sharedState":{"nodes":{"n1":true}}}}"#,
        r#"{"type":"STATE_UPDATE","data":{"objectId":"gate","state":true,"controllerId":"c1"}}"#,
        r#"{"type":"SHARED_STATE_UPDATE","data":{"sharedStatePatch":{"x":[1,2]},"controllerId":"c2"}}"#,
        r#"{"type":"OTHER"}"#,
    ];
    for (m, text) in downstream_samples().into_iter().zip(texts) {
        assert!(same(&encode_downstream(m), &parse(text)), "{}", text);
    }
}

#[test]
fn every_downstream_message_is_read_back() {
    for (m, again) in downstream_samples().into_iter().zip(downstream_samples()) {
        let text = print(&encode_downstream(m));
        let back = decode_downstream(&parse(&text)).unwrap();
        assert!(same(&encode_downstream(back), &encode_downstream(again)), "{}", text);
    }
    match decode_downstream(&parse(&print(&encode_downstream(downstream_samples().remove(6))))) {
        Some(Downstream::InitialState { connection_type, scenery, patch }) => {
            assert_eq!(connection_type, "controller");
            assert_eq!(scenery.len(), 2);
            assert_eq!((scenery[1].id.as_str(), scenery[1].state), ("bar", false));
            assert!(same(&patch, &parse(r#"{"nodes":{"n1":true}}"#)));
        },
        _ => panic!("not read back"),
    }
}

#[test]
fn every_upstream_message_is_read_back() {
    let samples = || {
        vec![
            Upstream::Heartbeat,
            Upstream::HeartbeatAck,
            Upstream::Close,
            Upstream::StateUpdate { object_id: key("gate"), state: false },
            Upstream::SharedStateUpdate { patch: parse(r#"{"blocks":{"b":"relax"}}"#) },
        ]
    };
    for (m, again) in samples().into_iter().zip(samples()) {
        let text = print(&encode_upstream(m));
        let back = decode_upstream(&parse(&text)).unwrap();
        assert!(same(&encode_upstream(back), &encode_upstream(again)), "{}", text);
    }
}

#[test]
fn unknown_downstream_kind_is_other() {
    assert!(matches!(
        decode_downstream(&parse(r#"{"type":"PILOT_UPDATE","data":{"x":1}}"#)),
        Some(Downstream::Other)
    ));
    assert!(decode_downstream(&parse(r#"{"data":{}}"#)).is_none());
    assert!(decode_downstream(&parse(r#"{"type":"ERROR","data":{}}"#)).is_none());
    assert!(decode_downstream(&parse(
        r#"{"type":"INITIAL_STATE","data":{"connectionType":"observer","objects":[{"id":"x"}],"sharedState":null}}"#
    ))
    .is_none());
}

#[test]
fn patch_is_written() {
    let j = patch_to_json(&sample_patch());
    assert!(same(
        &j,
        &parse(r#"{"profile":"day","nodes":{"n1":true,"n2":false},"blocks":{"b1":"clear","b2":"relax","b3":{"route":["n1","n2"]}}}"#)
    ));
    assert!(same(&patch_to_json(&Patch::default()), &parse(r#"{"profile":null,"nodes":{},"blocks":{}}"#)));
}

#[test]
fn patch_is_read_back() {
    let back = patch_from_json(&parse(&print(&patch_to_json(&sample_patch())))).unwrap();
    assert!(same_patch(&back, &sample_patch()));
    let back = patch_from_json(&patch_to_json(&Patch::default())).unwrap();
    assert!(back.is_empty());
}

#[test]
fn patch_members_may_be_missing() {
    assert!(patch_from_json(&parse("{}")).unwrap().is_empty());
    let p = patch_from_json(&parse(r#"{"nodes":{"a":true},"extra":7}"#)).unwrap();
    assert_eq!(p.profile, None);
    assert_eq!(p.nodes.get(&key("a")), Some(&true));
    assert!(p.blocks.is_empty());
}

#[test]
fn malformed_patches_are_refused() {
    for text in [
        "null",
        "[]",
        r#"{"profile":1}"#,
        r#"{"nodes":[]}"#,
        r#"{"nodes":{"a":"on"}}"#,
        r#"{"blocks":{"b":"open"}}"#,
        r#"{"blocks":{"b":{"route":["a"]}}}"#,
        r#"{"blocks":{"b":{"route":["a",1]}}}"#,
        r#"{"blocks":{"b":{"route":["a","b"],"x":1}}}"#,
        r#"{"blocks":{"b":{"path":["a","b"]}}}"#,
        r#"{"blocks":{"b":true}}"#,
    ] {
        assert!(patch_from_json(&parse(text)).is_none(), "{}", text);
    }
}

#[test]
fn client_messages_carry_patches_as_json() {
    let raw = upstream_raw(Upstream::SharedStateUpdate { patch: sample_patch() });
    let text = print(&encode_upstream(raw));
    let read = decode_upstream(&parse(&text)).unwrap();
    match read {
        Upstream::SharedStateUpdate { patch } => {
            assert!(same_patch(&patch_from_json(&patch).unwrap(), &sample_patch()))
        },
        _ => panic!("not a patch"),
    }
    assert!(matches!(upstream_raw(Upstream::Heartbeat), Upstream::Heartbeat));
    let cooked = downstream_read(Downstream::SharedStateUpdate {
        patch: patch_to_json(&sample_patch()),
        controller_id: key("c"),
    });
    assert!(matches!(
        cooked,
        Some(Downstream::SharedStateUpdate { patch, controller_id }) if controller_id == "c" && same_patch(&patch, &sample_patch())
    ));
    assert!(downstream_read(Downstream::InitialState {
        connection_type: key("observer"),
        scenery: Vec::new(),
        patch: Json::Null,
    })
    .is_none());
    assert!(matches!(downstream_read(Downstream::Other), Some(Downstream::Other)));
    assert!(matches!(
        downstream_read(Downstream::Error { message: key("x") }),
        Some(Downstream::Error { message }) if message == "x"
    ));
}
