use bars_core::client::Aerodrome as Replica;
use bars_core::config;
use bars_core::config::{BlockCondition, NodeCondition, Profile, ResetCondition};
use bars_core::ipc::{Downstream, Upstream};
use bars_core::manager::{
    describe, endpoints, endpoints_for, is_secure, is_secure_from, ConnectOptions, Failure,
    Manager, PatchStep, Poller, Reaction, Stream, TrackStep,
};
use bars_core::protocol;
use bars_core::protocol::Patch;
use bars_core::strmap::StrMap;

fn key(s: &str) -> String {
    s.to_string()
}

fn options(server: &str) -> ConnectOptions {
    ConnectOptions {
        server: key(server),
        token: key("SECRET-REDACTED"),
        port: 6866,
        callsign: key("EGLL_TWR"),
        controlling: true,
    }
}

fn nodes_patch(entries: &[(&str, bool)]) -> Patch {
    let mut nodes = StrMap::new();
    for (k, v) in entries {
        nodes.insert(key(k), *v);
    }
    Patch { profile: None, nodes, blocks: StrMap::new() }
}

fn tiny_config() -> config::Aerodrome {
    config::Aerodrome {
        icao: key("AAAA"),
        elements: Vec::new(),
        nodes: vec![config::Node { id: key("n1"), scratchpad: None, parent: None }],
        edges: Vec::new(),
        blocks: Vec::new(),
        profiles: vec![Profile {
            id: key("day"),
            name: key("Day"),
            nodes: vec![NodeCondition::Direct(ResetCondition::Never)],
            edges: Vec::new(),
            blocks: Vec::<BlockCondition>::new(),
            presets: Vec::new(),
        }],
    }
}

#[test]
fn tls_is_decided_by_scheme_or_port() {
    assert!(is_secure("https://v2.stopbars.com/"));
    assert!(is_secure("wss://example.org"));
    assert!(is_secure("http://example.org:443/x"));
    assert!(is_secure("example.org:443"));
    assert!(!is_secure("http://example.org"));
    assert!(!is_secure("ws://example.org:8080"));
    assert!(!is_secure("example.org"));
    assert!(!is_secure("not a uri"));
    assert!(!is_secure(""));
    assert!(is_secure_from(&Some(key("https")), None));
    assert!(is_secure_from(&None, Some(443)));
    assert!(!is_secure_from(&Some(key("http")), Some(80)));
    assert!(!is_secure_from(&Some(key("HTTPS")), None));
}

#[test]
fn endpoints_are_built_from_the_server() {
    let e = endpoints(&options("https://v2.stopbars.com/"), "EGLL");
    assert_eq!(e.state, "https://v2.stopbars.com/state?airport=EGLL");
    assert_eq!(e.connect, "wss://v2.stopbars.com/connect?airport=EGLL&key=SECRET-REDACTED");
    let e = endpoints(&options("localhost:8080"), "EGLL");
    assert_eq!(e.state, "http://localhost:8080/state?airport=EGLL");
    assert_eq!(e.connect, "ws://localhost:8080/connect?airport=EGLL&key=SECRET-REDACTED");
    let e = endpoints_for(true, "ws://host/base///", "k", "X");
    assert_eq!(e.state, "https://host/base/state?airport=X");
    assert_eq!(e.connect, "wss://host/base/connect?airport=X&key=k");
}

#[test]
fn failures_have_their_words() {
    assert_eq!(describe(Failure::ClosedByServer, "x"), "server closed connection");
    assert_eq!(describe(Failure::ClosedUnexpectedly, ""), "connection closed unexpectedly");
    assert_eq!(describe(Failure::Connection, "reset"), "server connection error: reset");
    assert_eq!(describe(Failure::Messaging, "pipe"), "server messaging error: pipe");
    assert_eq!(describe(Failure::Connecting, "refused"), "server connection failed: refused");
}

#[test]
fn first_tracker_connects_and_last_closes() {
    let mut m = Manager::new("AAAA", &Some(options("http://localhost")));
    assert_eq!(m.endpoints().unwrap().connect, "ws://localhost/connect?airport=AAAA&key=SECRET-REDACTED");
    assert_eq!(m.track(true), TrackStep::Connect);
    m.connected(7);
    assert_eq!(m.track(true), TrackStep::Sync);
    assert_eq!(m.track(false), TrackStep::Idle);
    assert_eq!(m.track(false), TrackStep::Close(Some(7)));
    assert_eq!(m.track(false), TrackStep::Close(None));
    assert_eq!(m.track(true), TrackStep::Connect);
}

#[test]
fn local_mode_never_connects() {
    let mut m = Manager::new("AAAA", &None);
    assert!(m.endpoints().is_none());
    assert_eq!(m.track(true), TrackStep::Sync);
    assert_eq!(m.track(false), TrackStep::Close(None));
}

#[test]
fn sync_waits_for_the_configuration() {
    let mut m = Manager::new("AAAA", &None);
    m.track(true);
    assert!(m.sync_clients().is_empty());
    m.set_config(tiny_config());
    m.control(true);
    let sync = m.sync_clients();
    assert_eq!(sync.len(), 3);
    assert!(matches!(&sync[0], Downstream::Config { data } if data.icao == "AAAA" && data.nodes.len() == 1));
    assert!(matches!(&sync[1], Downstream::Control { icao, control: true } if icao == "AAAA"));
    assert!(matches!(&sync[2], Downstream::Patch { icao, patch } if icao == "AAAA" && patch.is_empty()));
}

#[test]
fn control_is_dropped_with_the_last_tracker() {
    let mut m = Manager::new("AAAA", &None);
    m.set_config(tiny_config());
    m.track(true);
    assert!(matches!(m.control(true), Downstream::Control { icao, control: true } if icao == "AAAA"));
    m.patch(nodes_patch(&[("n1", true)]));
    m.track(false);
    m.track(true);
    let sync = m.sync_clients();
    assert!(matches!(&sync[1], Downstream::Control { control: false, .. }));
    assert!(matches!(&sync[2], Downstream::Patch { patch, .. } if patch.is_empty()));
}

#[test]
fn patch_is_merged_locally_without_a_link() {
    let mut m = Manager::new("AAAA", &None);
    m.set_config(tiny_config());
    m.track(true);
    match m.patch(nodes_patch(&[("n1", true)])) {
        PatchStep::Broadcast(Downstream::Patch { icao, patch }) => {
            assert_eq!(icao, "AAAA");
            assert_eq!(patch.nodes.get(&key("n1")), Some(&true));
        },
        _ => panic!("not broadcast"),
    }
    m.patch(nodes_patch(&[("n2", false)]));
    match &m.sync_clients()[2] {
        Downstream::Patch { patch, .. } => {
            assert_eq!(patch.nodes.len(), 2);
            assert_eq!(patch.nodes.get(&key("n1")), Some(&true));
            assert_eq!(patch.nodes.get(&key("n2")), Some(&false));
        },
        _ => panic!("no patch"),
    }
}

#[test]
fn patch_is_forwarded_over_the_link() {
    let mut m = Manager::new("AAAA", &Some(options("http://localhost")));
    m.set_config(tiny_config());
    m.track(true);
    m.connected(1);
    match m.patch(nodes_patch(&[("n1", true)])) {
        PatchStep::Forward(protocol::Upstream::SharedStateUpdate { patch }) => {
            assert_eq!(patch.nodes.get(&key("n1")), Some(&true));
        },
        _ => panic!("not forwarded"),
    }
    assert!(matches!(&m.sync_clients()[2], Downstream::Patch { patch, .. } if patch.is_empty()));
}

#[test]
fn scenery_is_sent_only_over_a_link() {
    let mut m = Manager::new("AAAA", &Some(options("http://localhost")));
    let mut scenery = StrMap::new();
    scenery.insert(key("gate"), true);
    scenery.insert(key("bar"), false);
    assert!(m.scenery(&scenery).is_empty());
    m.track(true);
    m.connected(1);
    let sent = m.scenery(&scenery);
    assert_eq!(sent.len(), 2);
    assert!(matches!(&sent[0], protocol::Upstream::StateUpdate { object_id, state: true } if object_id == "gate"));
    assert!(matches!(&sent[1], protocol::Upstream::StateUpdate { object_id, state: false } if object_id == "bar"));
}

#[test]
fn heartbeat_is_acknowledged() {
    let mut m = Manager::new("AAAA", &None);
    assert!(matches!(
        m.on_message(1, protocol::Downstream::Heartbeat),
        Reaction::Reply(protocol::Upstream::HeartbeatAck)
    ));
    assert!(matches!(m.on_message(1, protocol::Downstream::HeartbeatAck), Reaction::Ignore));
    assert!(matches!(m.on_message(1, protocol::Downstream::Other), Reaction::Ignore));
    assert!(matches!(
        m.on_message(1, protocol::Downstream::Error { message: key("x") }),
        Reaction::Ignore
    ));
    assert!(matches!(
        m.on_message(1, protocol::Downstream::ControllerConnect { controller_id: key("c") }),
        Reaction::Ignore
    ));
}

#[test]
fn server_state_is_merged_and_broadcast() {
    let mut m = Manager::new("AAAA", &Some(options("http://localhost")));
    m.set_config(tiny_config());
    m.track(true);
    m.connected(1);
    let r = m.on_message(
        1,
        protocol::Downstream::InitialState {
            connection_type: key("controller"),
            scenery: Vec::new(),
            patch: nodes_patch(&[("n1", true)]),
        },
    );
    assert!(matches!(r, Reaction::Broadcast(Downstream::Patch { icao, patch }) if icao == "AAAA" && patch.nodes.len() == 1));
    m.on_message(
        1,
        protocol::Downstream::SharedStateUpdate { patch: nodes_patch(&[("n1", false)]), controller_id: key("c") },
    );
    assert!(matches!(&m.sync_clients()[2], Downstream::Patch { patch, .. } if patch.nodes.get(&key("n1")) == Some(&false)));
}

#[test]
fn close_from_the_server_drops_the_link_once() {
    let mut m = Manager::new("AAAA", &Some(options("http://localhost")));
    m.track(true);
    m.connected(3);
    match m.on_message(3, protocol::Downstream::Close) {
        Reaction::Dropped(Some(Downstream::Error { icao, message, disconnect })) => {
            assert_eq!(icao, "AAAA");
            assert_eq!(message, Some(key("server closed connection")));
            assert!(disconnect);
        },
        _ => panic!("not dropped"),
    }
    assert!(matches!(m.on_message(3, protocol::Downstream::Close), Reaction::Dropped(None)));
    assert!(m.disconnect_forced(3, Failure::Connection, "late").is_none());
}

#[test]
fn forced_disconnect_compares_the_socket() {
    let mut m = Manager::new("AAAA", &Some(options("http://localhost")));
    m.track(true);
    m.connected(3);
    assert!(m.disconnect_forced(2, Failure::Connection, "old").is_none());
    let told = m.disconnect_forced(3, Failure::Connection, "reset");
    assert!(matches!(
        told,
        Some(Downstream::Error { message: Some(m), disconnect: true, .. }) if m == "server connection error: reset"
    ));
    assert!(matches!(
        m.failed(Failure::Connecting, "refused"),
        Downstream::Error { message: Some(m), disconnect: true, .. } if m == "server connection failed: refused"
    ));
}

#[test]
fn pilots_are_broadcast() {
    let m = Manager::new("AAAA", &None);
    assert!(matches!(
        m.aircraft(vec![key("BAW1")]),
        Downstream::Aircraft { icao, aircraft } if icao == "AAAA" && aircraft == vec![key("BAW1")]
    ));
}

#[test]
fn state_is_polled_after_thirty_quiet_seconds() {
    let mut p = Poller::new(1_000);
    assert!(!p.on_timeout(31_000));
    assert!(p.on_timeout(31_001));
    assert_eq!(p.last, 31_001);
    assert!(!p.on_timeout(40_000));
    p.on_inbound(60_000);
    assert!(!p.on_timeout(90_000));
    assert!(p.on_timeout(90_001));
    assert!(!p.on_timeout(0));
}

#[test]
fn stream_passes_on_only_changes_of_tracking() {
    let mut s = Stream::new();
    assert!(s.on_upstream(Upstream::Init).is_none());
    assert!(matches!(
        s.on_upstream(Upstream::Track { icao: key("AAAA"), track: true }),
        Some(Upstream::Track { track: true, .. })
    ));
    assert!(s.on_upstream(Upstream::Track { icao: key("AAAA"), track: true }).is_none());
    assert!(s.on_upstream(Upstream::Track { icao: key("BBBB"), track: false }).is_none());
    assert!(matches!(
        s.on_upstream(Upstream::Control { icao: key("ZZZZ"), control: true }),
        Some(Upstream::Control { .. })
    ));
    assert!(matches!(
        s.on_upstream(Upstream::Track { icao: key("AAAA"), track: false }),
        Some(Upstream::Track { track: false, .. })
    ));
    assert!(s.on_upstream(Upstream::Track { icao: key("AAAA"), track: false }).is_none());
}

#[test]
fn stream_gets_only_what_it_tracks() {
    let mut s = Stream::new();
    s.on_upstream(Upstream::Track { icao: key("AAAA"), track: true });
    let d = s.on_broadcast(&Downstream::Control { icao: key("AAAA"), control: true });
    assert!(d.deliver && d.untrack.is_none());
    let d = s.on_broadcast(&Downstream::Control { icao: key("BBBB"), control: true });
    assert!(!d.deliver && d.untrack.is_none());
    let d = s.on_broadcast(&Downstream::Config { data: tiny_config() });
    assert!(d.deliver);
    let d = s.on_broadcast(&Downstream::Error { icao: key("AAAA"), message: None, disconnect: false });
    assert!(d.deliver && d.untrack.is_none());
    let d = s.on_broadcast(&Downstream::Error { icao: key("AAAA"), message: None, disconnect: true });
    assert!(d.deliver);
    assert!(matches!(d.untrack, Some(Upstream::Track { icao, track: false }) if icao == "AAAA"));
    let d = s.on_broadcast(&Downstream::Control { icao: key("AAAA"), control: true });
    assert!(!d.deliver);
}

#[test]
fn closed_stream_ends_all_its_tracking() {
    let mut s = Stream::new();
    s.on_upstream(Upstream::Track { icao: key("AAAA"), track: true });
    s.on_upstream(Upstream::Track { icao: key("BBBB"), track: true });
    let mut ended: Vec<String> = s
        .on_closed()
        .into_iter()
        .map(|m| match m {
            Upstream::Track { icao, track: false } => icao,
            _ => panic!("not an end of tracking"),
        })
        .collect();
    ended.sort();
    assert_eq!(ended, vec![key("AAAA"), key("BBBB")]);
    assert!(s.on_closed().is_empty());
    assert!(!s.on_broadcast(&Downstream::Control { icao: key("AAAA"), control: true }).deliver);
}

#[test]
fn synced_configuration_loads_at_the_client() {
    let mut m = Manager::new("AAAA", &None);
    m.set_config(tiny_config());
    m.track(true);
    let mut sync = m.sync_clients();
    match sync.remove(0) {
        Downstream::Config { data } => assert!(Replica::new(data).is_some()),
        _ => panic!("no configuration"),
    }
}

#[test]
fn last_untrack_closes_the_link_with_a_farewell() {
    let mut m = Manager::new("AAAA", &Some(options("http://localhost")));
    m.track(true);
    m.connected(9);
    m.control(true);
    let step = m.track(false);
    assert_eq!(step, TrackStep::Close(Some(9)));
    let sent = Manager::farewell(step);
    assert_eq!(sent.len(), 1);
    assert!(matches!(sent[0], protocol::Upstream::Close));
    // the link was forgotten: the next patch is merged here
    assert!(matches!(m.patch(nodes_patch(&[("n1", true)])), PatchStep::Broadcast(_)));
    // after a forced disconnect there is nothing to close and nothing to send
    let mut m = Manager::new("AAAA", &Some(options("http://localhost")));
    m.track(true);
    m.connected(4);
    m.disconnect_forced(4, Failure::Connection, "reset");
    let step = m.track(false);
    assert_eq!(step, TrackStep::Close(None));
    assert!(Manager::farewell(step).is_empty());
    assert!(Manager::farewell(TrackStep::Sync).is_empty());
    assert!(Manager::farewell(TrackStep::Connect).is_empty());
}
