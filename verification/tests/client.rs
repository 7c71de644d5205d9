use bars_core::client::{notice, Client};
use bars_core::config;
use bars_core::config::{BlockCondition, NodeCondition, Profile, ResetCondition};
use bars_core::ipc::{Downstream, Upstream};
use bars_core::manager::{Manager, PatchStep, Stream, TrackStep};
use bars_core::model::ActivityState;
use bars_core::protocol::Patch;
use bars_core::strmap::StrMap;

fn key(s: &str) -> String {
    s.to_string()
}

fn config_of(icao: &str) -> config::Aerodrome {
    config::Aerodrome {
        icao: key(icao),
        elements: Vec::new(),
        nodes: vec![
            config::Node { id: key("n1"), scratchpad: None, parent: None },
            config::Node { id: key("n2"), scratchpad: None, parent: None },
        ],
        edges: Vec::new(),
        blocks: Vec::new(),
        profiles: vec![Profile {
            id: key("day"),
            name: key("Day"),
            nodes: vec![
                NodeCondition::Direct(ResetCondition::TimeSecs(2)),
                NodeCondition::Direct(ResetCondition::Never),
            ],
            edges: Vec::new(),
            blocks: Vec::<BlockCondition>::new(),
            presets: Vec::new(),
        }],
    }
}

fn tracking(icao: &str) -> Client {
    let (mut c, init) = Client::new();
    assert!(matches!(init, Upstream::Init));
    let out = c.tick(vec![Downstream::Config { data: config_of(icao) }], 0);
    assert!(out.messages.is_empty() && out.outbound.is_empty());
    c
}

fn nodes_patch(entries: &[(&str, bool)]) -> Patch {
    let mut nodes = StrMap::new();
    for (k, v) in entries {
        nodes.insert(key(k), *v);
    }
    Patch { profile: None, nodes, blocks: StrMap::new() }
}

#[test]
fn configuration_starts_a_replica_once() {
    let mut c = tracking("AAAA");
    assert!(c.aerodrome(&key("AAAA")).is_some());
    assert!(c.aerodrome(&key("BBBB")).is_none());
    c.set_node(&key("AAAA"), 1, true, 0);
    c.tick(vec![Downstream::Config { data: config_of("AAAA") }], 0);
    // the replica was kept, not started again
    assert_eq!(c.aerodrome(&key("AAAA")).unwrap().node_cell(1).unwrap().pending, Some(true));
}

#[test]
fn inconsistent_configuration_is_passed_over() {
    let (mut c, _) = Client::new();
    let mut bad = config_of("AAAA");
    bad.profiles.clear();
    c.tick(vec![Downstream::Config { data: bad }], 0);
    assert!(c.aerodrome(&key("AAAA")).is_none());
}

#[test]
fn control_and_pilots_update_the_replica() {
    let mut c = tracking("AAAA");
    c.tick(
        vec![
            Downstream::Control { icao: key("AAAA"), control: true },
            Downstream::Aircraft { icao: key("AAAA"), aircraft: vec![key("BAW1")] },
            Downstream::Control { icao: key("BBBB"), control: true },
        ],
        0,
    );
    let a = c.aerodrome(&key("AAAA")).unwrap();
    assert_eq!(a.state(), ActivityState::Controlling);
    assert!(a.is_pilot_enabled(&key("BAW1")));
    c.tick(vec![Downstream::Control { icao: key("AAAA"), control: false }], 0);
    assert_eq!(c.aerodrome(&key("AAAA")).unwrap().state(), ActivityState::Observing);
}

#[test]
fn tick_sends_what_was_queued_and_nothing_empty() {
    let mut c = tracking("AAAA");
    c.set_node(&key("AAAA"), 1, true, 0);
    let out = c.tick(Vec::new(), 10);
    assert_eq!(out.outbound.len(), 1);
    match &out.outbound[0] {
        Upstream::Patch { icao, patch } => {
            assert_eq!(icao, "AAAA");
            assert_eq!(patch.nodes.len(), 1);
            assert_eq!(patch.nodes.get(&key("n2")), Some(&true));
        },
        _ => panic!("no patch"),
    }
    let out = c.tick(Vec::new(), 20);
    assert!(out.outbound.is_empty());
    assert!(out.messages.is_empty());
}

#[test]
fn timer_fires_and_its_patch_is_sent() {
    let mut c = tracking("AAAA");
    c.set_node(&key("AAAA"), 0, false, 0);
    let out = c.tick(Vec::new(), 0);
    assert_eq!(out.outbound.len(), 1);
    assert!(c.tick(Vec::new(), 1000).outbound.is_empty());
    let out = c.tick(Vec::new(), 2500);
    assert_eq!(c.aerodrome(&key("AAAA")).unwrap().node_cell(0).unwrap().pending, Some(true));
    assert_eq!(out.outbound.len(), 1);
    assert!(matches!(
        &out.outbound[0],
        Upstream::Patch { icao, patch } if icao == "AAAA" && patch.nodes.len() == 1 && patch.nodes.get(&key("n1")) == Some(&true)
    ));
}

#[test]
fn idle_ticks_change_nothing() {
    let mut c = tracking("AAAA");
    c.set_node(&key("AAAA"), 1, true, 0);
    c.tick(Vec::new(), 5);
    for now in [5, 5, 6, 1_000_000] {
        let out = c.tick(Vec::new(), now);
        assert!(out.outbound.is_empty() && out.messages.is_empty());
        let a = c.aerodrome(&key("AAAA")).unwrap();
        assert_eq!(a.node_cell(1).unwrap().pending, Some(true));
        assert!(a.node_timers().is_empty());
    }
}

#[test]
fn server_error_is_told_to_the_user() {
    let mut c = tracking("AAAA");
    let out = c.tick(
        vec![
            Downstream::Error { icao: key("AAAA"), message: Some(key("busy")), disconnect: false },
            Downstream::Error { icao: key("AAAA"), message: None, disconnect: false },
        ],
        0,
    );
    assert_eq!(out.messages, vec![key("server: AAAA: busy"), key("server: AAAA: error")]);
    assert!(out.outbound.is_empty());
    assert!(c.aerodrome(&key("AAAA")).is_some());
    assert_eq!(notice(&key("EGLL"), &Some(key("x"))), "server: EGLL: x");
}

#[test]
fn tracking_and_control_messages() {
    let mut c = tracking("AAAA");
    assert!(matches!(
        c.set_controlling(key("AAAA"), true),
        Some(Upstream::Control { icao, control: true }) if icao == "AAAA"
    ));
    assert!(c.set_controlling(key("BBBB"), true).is_none());
    assert!(matches!(
        c.set_tracking(key("BBBB"), true),
        Upstream::Track { icao, track: true } if icao == "BBBB"
    ));
    assert!(c.aerodrome(&key("AAAA")).is_some());
    assert!(matches!(
        c.set_tracking(key("AAAA"), false),
        Upstream::Track { icao, track: false } if icao == "AAAA"
    ));
    assert!(c.aerodrome(&key("AAAA")).is_none());
}

#[test]
fn intents_reach_only_the_named_aerodrome() {
    let mut c = tracking("AAAA");
    c.tick(vec![Downstream::Config { data: config_of("BBBB") }], 0);
    c.set_node(&key("BBBB"), 0, false, 0);
    c.set_node(&key("CCCC"), 0, false, 0);
    assert_eq!(c.aerodrome(&key("AAAA")).unwrap().node_cell(0).unwrap().pending, None);
    assert_eq!(c.aerodrome(&key("BBBB")).unwrap().node_cell(0).unwrap().pending, Some(false));
    c.set_profile(&key("AAAA"), 0);
    c.apply_preset(&key("AAAA"), 0);
    c.set_block(&key("AAAA"), 0, config::BlockState::Relax, 0);
    c.set_route(&key("AAAA"), (0, 1), 0);
    let out = c.tick(Vec::new(), 1);
    assert_eq!(out.outbound.len(), 2);
    assert!(matches!(&out.outbound[0], Upstream::Patch { icao, patch } if icao == "AAAA" && patch.profile == Some(key("day"))));
    assert!(matches!(&out.outbound[1], Upstream::Patch { icao, .. } if icao == "BBBB"));
}

/// Carries what one client sends through its stream to the manager and
/// hands every other stream what the manager broadcasts.
fn relay(
    sender: usize,
    sent: Vec<Upstream>,
    manager: &mut Manager,
    streams: &mut Vec<Stream>,
    inboxes: &mut Vec<Vec<Downstream>>,
) -> Vec<TrackStep> {
    let mut steps = Vec::new();
    let mut queue: Vec<Upstream> = Vec::new();
    for m in sent {
        if let Some(m) = streams[sender].on_upstream(m) {
            queue.push(m);
        }
    }
    while !queue.is_empty() {
        let m = queue.remove(0);
        let mut broadcast: Vec<Downstream> = Vec::new();
        match m {
            Upstream::Track { track, .. } => {
                let step = manager.track(track);
                if step == TrackStep::Sync {
                    broadcast = manager.sync_clients();
                }
                steps.push(step);
            },
            Upstream::Control { control, .. } => broadcast.push(manager.control(control)),
            Upstream::Patch { patch, .. } => match manager.patch(patch) {
                PatchStep::Broadcast(d) => broadcast.push(d),
                PatchStep::Forward(_) => panic!("no link in this test"),
            },
            _ => {},
        }
        for d in broadcast {
            for (i, s) in streams.iter_mut().enumerate() {
                let delivery = s.on_broadcast(&d);
                if let Some(u) = delivery.untrack {
                    queue.push(u);
                }
                if delivery.deliver {
                    inboxes[i].push(copy(&d));
                }
            }
        }
    }
    steps
}

fn copy(d: &Downstream) -> Downstream {
    match d {
        Downstream::Config { data } => Downstream::Config { data: data.clone() },
        Downstream::Control { icao, control } => Downstream::Control { icao: icao.clone(), control: *control },
        Downstream::Patch { icao, patch } => Downstream::Patch { icao: icao.clone(), patch: patch.clone() },
        Downstream::Aircraft { icao, aircraft } => {
            Downstream::Aircraft { icao: icao.clone(), aircraft: aircraft.clone() }
        },
        Downstream::Error { icao, message, disconnect } => {
            Downstream::Error { icao: icao.clone(), message: message.clone(), disconnect: *disconnect }
        },
    }
}

#[test]
fn echo() {
    let mut manager = Manager::new("AAAA", &None);
    manager.set_config(config_of("AAAA"));
    let mut streams = vec![Stream::new(), Stream::new()];
    let mut inboxes: Vec<Vec<Downstream>> = vec![Vec::new(), Vec::new()];
    let (mut a, _) = Client::new();
    let (mut b, _) = Client::new();
    let track = a.set_tracking(key("AAAA"), true);
    relay(0, vec![track], &mut manager, &mut streams, &mut inboxes);
    let track = b.set_tracking(key("AAAA"), true);
    relay(1, vec![track], &mut manager, &mut streams, &mut inboxes);
    a.tick(std::mem::take(&mut inboxes[0]), 0);
    b.tick(std::mem::take(&mut inboxes[1]), 0);
    assert!(a.aerodrome(&key("AAAA")).is_some());
    assert!(b.aerodrome(&key("AAAA")).is_some());

    let sent = vec![Upstream::Patch { icao: key("AAAA"), patch: nodes_patch(&[("n1", true)]) }];
    relay(0, sent, &mut manager, &mut streams, &mut inboxes);
    assert_eq!(inboxes[1].len(), 1);
    assert!(matches!(&inboxes[1][0], Downstream::Patch { icao, .. } if icao == "AAAA"));
    b.tick(std::mem::take(&mut inboxes[1]), 1);
    let cell = b.aerodrome(&key("AAAA")).unwrap().node_cell(0).unwrap();
    assert_eq!(cell.current, true);
    assert_eq!(cell.pending, None);
}

#[test]
fn local_change_is_echoed_back_and_confirmed() {
    let mut manager = Manager::new("AAAA", &None);
    manager.set_config(config_of("AAAA"));
    let mut streams = vec![Stream::new()];
    let mut inboxes: Vec<Vec<Downstream>> = vec![Vec::new()];
    let (mut a, _) = Client::new();
    let track = a.set_tracking(key("AAAA"), true);
    relay(0, vec![track], &mut manager, &mut streams, &mut inboxes);
    a.tick(std::mem::take(&mut inboxes[0]), 0);
    a.set_node(&key("AAAA"), 1, true, 0);
    let out = a.tick(Vec::new(), 0);
    relay(0, out.outbound, &mut manager, &mut streams, &mut inboxes);
    let out = a.tick(std::mem::take(&mut inboxes[0]), 1);
    assert!(out.outbound.is_empty());
    let cell = a.aerodrome(&key("AAAA")).unwrap().node_cell(1).unwrap();
    assert_eq!((cell.current, cell.pending), (true, None));
}

#[test]
fn disconnect_cascade() {
    let mut manager = Manager::new("AAAA", &None);
    manager.set_config(config_of("AAAA"));
    let mut streams = vec![Stream::new(), Stream::new()];
    let mut inboxes: Vec<Vec<Downstream>> = vec![Vec::new(), Vec::new()];
    let mut clients = vec![Client::new().0, Client::new().0];
    for i in 0..2 {
        let track = clients[i].set_tracking(key("AAAA"), true);
        relay(i, vec![track], &mut manager, &mut streams, &mut inboxes);
        clients[i].tick(std::mem::take(&mut inboxes[i]), 0);
    }
    manager.connected(5);
    let told = manager.disconnect_forced(5, bars_core::manager::Failure::ClosedByServer, "").unwrap();
    let mut steps = Vec::new();
    for i in 0..2 {
        let delivery = streams[i].on_broadcast(&told);
        assert!(delivery.deliver);
        match delivery.untrack {
            Some(Upstream::Track { track, .. }) => steps.push(manager.track(track)),
            _ => panic!("stream keeps tracking"),
        }
        let out = clients[i].tick(vec![copy(&told)], 1);
        assert_eq!(out.messages, vec![key("server: AAAA: server closed connection")]);
        assert_eq!(out.outbound.len(), 1);
        assert!(matches!(&out.outbound[0], Upstream::Track { icao, track: false } if icao == "AAAA"));
        assert!(clients[i].aerodrome(&key("AAAA")).is_none());
        // the stream has seen the end of tracking already: nothing more reaches the manager
        assert!(relay(i, out.outbound, &mut manager, &mut streams, &mut inboxes).is_empty());
    }
    assert_eq!(steps, vec![TrackStep::Idle, TrackStep::Close(None)]);
}
