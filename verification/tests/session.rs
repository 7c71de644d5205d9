use bars_core::json::{merge, Json};
use bars_core::protocol::{Downstream, Upstream};
use bars_core::session::{
    answer, connect_params, invalid_frame, malformed, state_airport, Access, Aerodrome, Answer,
    Handshake, Role,
};

fn key(s: &str) -> String {
    s.to_string()
}

fn num(n: i64) -> Json {
    Json::Number(n.to_string())
}

fn obj(members: Vec<(&str, Json)>) -> Json {
    Json::Object(members.into_iter().map(|(k, v)| (key(k), v)).collect())
}

fn same(a: &Json, b: &Json) -> bool {
    match (a, b) {
        (Json::Null, Json::Null) => true,
        (Json::Bool(x), Json::Bool(y)) => x == y,
        (Json::Number(x), Json::Number(y)) => x == y,
        (Json::Text(x), Json::Text(y)) => x == y,
        (Json::Array(x), Json::Array(y)) => {
            x.len() == y.len() && x.iter().zip(y.iter()).all(|(p, q)| same(p, q))
        },
        (Json::Object(x), Json::Object(y)) => {
            x.len() == y.len()
                && x.iter().zip(y.iter()).all(|((k, p), (l, q))| k == l && same(p, q))
        },
        _ => false,
    }
}

fn access() -> Access {
    Access { controller_keys: vec![key("ctl"), key("both")], observer_keys: vec![key("obs"), key("both")] }
}

fn initial_state(m: &Downstream<Json>) -> (&String, usize, &Json) {
    match m {
        Downstream::InitialState { connection_type, scenery, patch } => {
            (connection_type, scenery.len(), patch)
        },
        _ => panic!("not an initial state"),
    }
}

#[test]
fn deep_merge() {
    let state = obj(vec![("a", obj(vec![("x", num(1))]))]);
    let state = merge(state, obj(vec![("a", obj(vec![("y", num(2))]))]));
    assert!(same(&state, &obj(vec![("a", obj(vec![("x", num(1)), ("y", num(2))]))])));
    let state = merge(state, obj(vec![("a", num(5))]));
    assert!(same(&state, &obj(vec![("a", num(5))])));
}

#[test]
fn merge_replaces_what_is_not_an_object() {
    assert!(same(&merge(Json::Null, obj(vec![("a", num(1))])), &obj(vec![("a", num(1))])));
    assert!(same(&merge(obj(vec![("a", num(1))]), Json::Null), &Json::Null));
    assert!(same(
        &merge(Json::Array(vec![num(1)]), Json::Array(vec![num(2)])),
        &Json::Array(vec![num(2)])
    ));
    assert!(same(&merge(Json::Text(key("x")), Json::Bool(true)), &Json::Bool(true)));
}

#[test]
fn merge_recurses_and_adds_in_order() {
    let target = obj(vec![("a", obj(vec![("b", obj(vec![("c", num(1))]))])), ("k", num(0))]);
    let source = obj(vec![
        ("n", Json::Text(key("new"))),
        ("a", obj(vec![("b", obj(vec![("d", num(2))])), ("e", Json::Bool(false))])),
    ]);
    let want = obj(vec![
        ("a", obj(vec![("b", obj(vec![("c", num(1)), ("d", num(2))])), ("e", Json::Bool(false))])),
        ("k", num(0)),
        ("n", Json::Text(key("new"))),
    ]);
    assert!(same(&merge(target, source), &want));
}

#[test]
fn clone_of_json_is_the_same() {
    let v = obj(vec![("a", Json::Array(vec![num(1), Json::Null, obj(vec![("z", Json::Bool(true))])]))]);
    assert!(same(&v.clone(), &v));
}

#[test]
fn roles_by_key() {
    let a = access();
    assert_eq!(a.role_of("ctl"), Some(Role::Controller));
    assert_eq!(a.role_of("obs"), Some(Role::Observer));
    assert_eq!(a.role_of("both"), Some(Role::Controller));
    assert_eq!(a.role_of("nope"), None);
    assert_eq!(a.role_of(""), None);
    assert!(a.overlapping());
    let b = Access { controller_keys: vec![key("a")], observer_keys: vec![key("b")] };
    assert!(!b.overlapping());
}

#[test]
fn connect_query_takes_the_last_of_each() {
    assert_eq!(connect_params("airport=AAAA&key=k1"), Some((key("AAAA"), key("k1"))));
    assert_eq!(connect_params("key=k1&x&airport=AAAA&airport=BBBB"), Some((key("BBBB"), key("k1"))));
    assert_eq!(connect_params("airport=AAAA"), None);
    assert_eq!(connect_params(""), None);
    assert_eq!(connect_params("airport=A=B&key="), Some((key("A=B"), key(""))));
}

#[test]
fn state_query_takes_the_first_airport() {
    assert_eq!(state_airport("airport=AAAA&airport=BBBB"), Some(key("AAAA")));
    assert_eq!(state_airport("x=1&airport=CCCC"), Some(key("CCCC")));
    assert_eq!(state_airport("airports=AAAA"), None);
}

fn handshake() -> Handshake {
    Handshake {
        get: true,
        http11: true,
        connection: Some(key("Upgrade")),
        upgrade: Some(key("websocket")),
        version: Some(key("13")),
        key: Some(b"dGhlIHNhbXBsZSBub25jZQ==".to_vec()),
    }
}

#[test]
fn handshake_is_answered_with_the_accept_key() {
    assert_eq!(handshake().accept(), Some(key("s3pPLMBiTxaQ9kYGzzhZRbK+xOo=")));
}

#[test]
fn handshake_headers_are_compared_without_case() {
    let mut h = handshake();
    h.connection = Some(key("UPGRADE"));
    h.upgrade = Some(key("h2c, WebSocket"));
    assert!(h.wants_upgrade());
    h.upgrade = Some(key("h2c,spdy websockets"));
    assert!(!h.wants_upgrade());
}

#[test]
fn handshake_is_refused() {
    let mut h = handshake();
    h.version = Some(key("12"));
    assert_eq!(h.accept(), None);
    let mut h = handshake();
    h.get = false;
    assert_eq!(h.accept(), None);
    let mut h = handshake();
    h.http11 = false;
    assert_eq!(h.accept(), None);
    let mut h = handshake();
    h.connection = Some(key("keep-alive"));
    assert_eq!(h.accept(), None);
    let mut h = handshake();
    h.upgrade = None;
    assert_eq!(h.accept(), None);
    let mut h = handshake();
    h.key = None;
    assert!(h.wants_upgrade());
    assert_eq!(h.accept(), None);
}

#[test]
fn controller_connects_and_disconnects() {
    let mut a = Aerodrome::new();
    let (initial, announce) = a.connect(&key("c1"), Role::Controller);
    let (kind, objects, state) = initial_state(&initial);
    assert_eq!(kind, "controller");
    assert_eq!(objects, 0);
    assert!(same(state, &Json::Null));
    assert!(matches!(announce, Some(Downstream::ControllerConnect { controller_id }) if controller_id == "c1"));
    assert!(!a.report("AAAA").offline);
    assert_eq!(a.report("AAAA").controllers, vec![key("c1")]);
    let gone = a.disconnect(&key("c1"), Role::Controller);
    assert!(matches!(gone, Some(Downstream::ControllerDisconnect { controller_id }) if controller_id == "c1"));
    assert!(a.report("AAAA").offline);
}

#[test]
fn observer_connects_silently() {
    let mut a = Aerodrome::new();
    let (initial, announce) = a.connect(&key("o1"), Role::Observer);
    assert_eq!(initial_state(&initial).0, "observer");
    assert!(announce.is_none());
    assert!(a.report("AAAA").offline);
    assert!(a.disconnect(&key("o1"), Role::Observer).is_none());
}

#[test]
fn observer_mutation_refused() {
    let mut a = Aerodrome::new();
    a.connect(&key("o1"), Role::Observer);
    let out = a.handle(None, Upstream::SharedStateUpdate { patch: obj(vec![("a", num(1))]) });
    assert!(matches!(out.reply, Some(Downstream::Error { message }) if message == "invalid message"));
    assert!(out.broadcast.is_none());
    assert!(!out.close);
    let (later, _) = a.connect(&key("o2"), Role::Observer);
    assert!(same(initial_state(&later).2, &Json::Null));
    let out = a.handle(None, Upstream::StateUpdate { object_id: key("x"), state: true });
    assert!(matches!(out.reply, Some(Downstream::Error { message }) if message == "invalid message"));
    assert!(out.broadcast.is_none());
    assert_eq!(a.report("AAAA").objects.len(), 0);
}

#[test]
fn controller_updates_are_merged_and_passed_on() {
    let mut a = Aerodrome::new();
    let id = key("c1");
    a.connect(&id, Role::Controller);
    let out = a.handle(Some(&id), Upstream::SharedStateUpdate { patch: obj(vec![("a", obj(vec![("x", num(1))]))]) });
    assert!(out.reply.is_none());
    match out.broadcast {
        Some(Downstream::SharedStateUpdate { patch, controller_id }) => {
            assert_eq!(controller_id, "c1");
            assert!(same(&patch, &obj(vec![("a", obj(vec![("x", num(1))]))])));
        },
        _ => panic!("no broadcast"),
    }
    a.handle(Some(&id), Upstream::SharedStateUpdate { patch: obj(vec![("a", obj(vec![("y", num(2))]))]) });
    let out = a.handle(Some(&id), Upstream::StateUpdate { object_id: key("gate"), state: true });
    assert!(matches!(
        out.broadcast,
        Some(Downstream::StateUpdate { object_id, state: true, controller_id }) if object_id == "gate" && controller_id == "c1"
    ));
    let (initial, _) = a.connect(&key("o1"), Role::Observer);
    let (_, objects, state) = initial_state(&initial);
    assert_eq!(objects, 1);
    assert!(same(state, &obj(vec![("a", obj(vec![("x", num(1)), ("y", num(2))]))])));
    let report = a.report("AAAA");
    assert_eq!(report.airport, "AAAA");
    assert_eq!(report.objects.len(), 1);
    assert_eq!(report.objects[0].id, "gate");
    assert!(report.objects[0].state);
    assert!(report.pilots.is_empty());
}

#[test]
fn last_controller_leaving_forgets_the_state() {
    let mut a = Aerodrome::new();
    let (c1, c2) = (key("c1"), key("c2"));
    a.connect(&c1, Role::Controller);
    a.connect(&c2, Role::Controller);
    a.handle(Some(&c1), Upstream::StateUpdate { object_id: key("gate"), state: true });
    a.handle(Some(&c1), Upstream::SharedStateUpdate { patch: obj(vec![("a", num(1))]) });
    a.disconnect(&c1, Role::Controller);
    assert_eq!(a.report("AAAA").objects.len(), 1);
    assert!(a.disconnect(&key("ghost"), Role::Controller).is_some());
    assert_eq!(a.report("AAAA").objects.len(), 1);
    a.disconnect(&c2, Role::Controller);
    assert_eq!(a.report("AAAA").objects.len(), 0);
    let (initial, _) = a.connect(&key("o1"), Role::Observer);
    assert!(same(initial_state(&initial).2, &Json::Null));
}

#[test]
fn heartbeat_and_close() {
    let mut a = Aerodrome::new();
    let out = a.handle(None, Upstream::Heartbeat);
    assert!(matches!(out.reply, Some(Downstream::HeartbeatAck)));
    assert!(out.broadcast.is_none() && !out.close);
    let out = a.handle(None, Upstream::HeartbeatAck);
    assert!(out.reply.is_none() && out.broadcast.is_none() && !out.close);
    let out = a.handle(Some(&key("c")), Upstream::Close);
    assert!(out.reply.is_none() && out.broadcast.is_none() && out.close);
}

#[test]
fn protocol_errors_have_their_words() {
    assert!(matches!(malformed(), Downstream::Error { message } if message == "malformed message"));
    assert!(matches!(invalid_frame(), Downstream::Error { message } if message == "invalid websocket frame"));
}

#[test]
fn requests_are_answered() {
    let a = access();
    let h = handshake();
    assert!(matches!(answer("/nope", true, Some("airport=AAAA"), &h, &a), Answer::NotFound));
    assert!(matches!(answer("/", true, None, &h, &a), Answer::NotFound));
    match answer("/connect", true, Some("airport=AAAA&key=ctl"), &h, &a) {
        Answer::Upgrade { accept, icao, role } => {
            assert_eq!(accept, "s3pPLMBiTxaQ9kYGzzhZRbK+xOo=");
            assert_eq!(icao, "AAAA");
            assert_eq!(role, Role::Controller);
        },
        _ => panic!("no upgrade"),
    }
    assert!(matches!(
        answer("/connect", true, Some("airport=AAAA&key=obs"), &h, &a),
        Answer::Upgrade { role: Role::Observer, .. }
    ));
    assert!(matches!(
        answer("/connect", true, Some("airport=AAAA&key=nope"), &h, &a),
        Answer::Unauthorized
    ));
    // what is missing is found before the key is looked at
    assert!(matches!(answer("/connect", true, Some("key=nope"), &h, &a), Answer::BadRequest));
    assert!(matches!(answer("/connect", true, Some("airport=AAAA"), &h, &a), Answer::BadRequest));
    assert!(matches!(answer("/connect", true, None, &h, &a), Answer::BadRequest));
    let mut plain = handshake();
    plain.upgrade = None;
    assert!(matches!(
        answer("/connect", true, Some("airport=AAAA&key=ctl"), &plain, &a),
        Answer::BadRequest
    ));
    let mut keyless = handshake();
    keyless.key = None;
    assert!(matches!(
        answer("/connect", true, Some("airport=AAAA&key=ctl"), &keyless, &a),
        Answer::BadRequest
    ));
    assert!(matches!(
        answer("/state", true, Some("x=1&airport=BBBB"), &plain, &a),
        Answer::State { airport } if airport == "BBBB"
    ));
    assert!(matches!(answer("/state", false, Some("airport=BBBB"), &plain, &a), Answer::BadRequest));
    assert!(matches!(answer("/state", true, Some("x=1"), &plain, &a), Answer::BadRequest));
    assert!(matches!(answer("/state", true, None, &plain, &a), Answer::BadRequest));
}

#[test]
fn report_lists_each_controller_once() {
    let mut a = Aerodrome::new();
    a.connect(&key("c1"), Role::Controller);
    a.connect(&key("c1"), Role::Controller);
    a.connect(&key("c2"), Role::Controller);
    let mut controllers = a.report("AAAA").controllers;
    controllers.sort();
    assert_eq!(controllers, vec![key("c1"), key("c2")]);
}
