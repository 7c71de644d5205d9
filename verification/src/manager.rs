//! The broker's side of one aerodrome: who tracks it, who controls it, its
//! authoritative state, and what to do with the link to the session server.
//!
//! Nothing here touches a socket. Each operation says what is to be sent or
//! done, and the program around the library does it.

use crate::config;
use crate::ipc::{Downstream, Upstream};
use crate::protocol;
use crate::protocol::{Patch, PatchView};
use crate::strmap::StrMap;
use crate::text::{opt_text, split_first, split_once, texts, trim_end, trimmed_end, is_text};
use tokio_tungstenite::tungstenite::http::Uri;
use vstd::prelude::*;
use vstd::string::*;

verus! {

/// How the broker reaches the session server.
#[derive(Clone, Debug)]
pub struct ConnectOptions {
    pub server: String,
    pub token: String,
    pub port: u16,
    pub callsign: String,
    pub controlling: bool,
}

/// The scheme that `http::Uri` finds in `server`, nothing where it finds
/// none or does not accept the text.
pub uninterp spec fn parsed_scheme(server: Seq<char>) -> Option<Seq<char>>;

/// The port that `http::Uri` finds in `server`, nothing where it finds none
/// or does not accept the text.
pub uninterp spec fn parsed_port(server: Seq<char>) -> Option<u16>;

/// Calls `str::parse::<http::Uri>` and, on what it accepts,
/// `Uri::scheme_str`. The contract only gives the result its name: what the
/// parser makes of a text depends on the text alone.
#[verifier::external_body]
fn uri_scheme(server: &str) -> (r: Option<String>)
    ensures
        opt_text(r) == parsed_scheme(server@),
{
    match server.parse::<Uri>() {
        Ok(uri) => match uri.scheme_str() {
            Some(s) => Some(s.to_string()),
            None => None,
        },
        Err(_) => None,
    }
}

/// Calls `str::parse::<http::Uri>` and, on what it accepts, `Uri::port_u16`.
/// The contract only gives the result its name.
#[verifier::external_body]
fn uri_port(server: &str) -> (r: Option<u16>)
    ensures
        r == parsed_port(server@),
{
    match server.parse::<Uri>() {
        Ok(uri) => uri.port_u16(),
        Err(_) => None,
    }
}

/// Whether a server with this scheme and port is reached over TLS: the
/// scheme is `https` or `wss`, or the port is 443.
pub open spec fn secure(scheme: Option<Seq<char>>, port: Option<u16>) -> bool {
    scheme == Some("https"@) || scheme == Some("wss"@) || port == Some(443u16)
}

/// Tests `secure`.
pub fn is_secure_from(scheme: &Option<String>, port: Option<u16>) -> (r: bool)
    ensures
        r == secure(opt_text(*scheme), port),
{
    let by_scheme = match scheme {
        Some(s) => is_text(s, "https") || is_text(s, "wss"),
        None => false,
    };
    let by_port = match port {
        Some(p) => p == 443,
        None => false,
    };
    by_scheme || by_port
}

/// Whether the server `server` is reached over TLS.
pub fn is_secure(server: &str) -> (r: bool)
    ensures
        r == secure(parsed_scheme(server@), parsed_port(server@)),
{
    let scheme = uri_scheme(server);
    let port = uri_port(server);
    is_secure_from(&scheme, port)
}

/// The host and path of a server address: what follows the first `://`, or
/// all of it, without slashes at the end.
pub open spec fn host_part(server: Seq<char>) -> Seq<char> {
    trimmed_end(
        match split_first(server, "://"@) {
            Some((_, rest)) => rest,
            None => server,
        },
        '/',
    )
}

/// The rest of an address after the letters of its protocol.
pub open spec fn address_tail(tls: bool, host: Seq<char>) -> Seq<char> {
    (if tls {
        "s"@
    } else {
        ""@
    }) + "://"@ + host
}

/// Where the state of aerodrome `icao` is polled.
pub open spec fn state_url(tls: bool, host: Seq<char>, icao: Seq<char>) -> Seq<char> {
    "http"@ + address_tail(tls, host) + "/state?airport="@ + icao
}

/// Where the session for aerodrome `icao` is opened with the key `key`.
pub open spec fn connect_url(tls: bool, host: Seq<char>, icao: Seq<char>, key: Seq<char>) -> Seq<
    char,
> {
    "ws"@ + address_tail(tls, host) + "/connect?airport="@ + icao + "&key="@ + key
}

/// The two addresses of an aerodrome at the session server.
#[derive(Clone, Debug)]
pub struct Endpoints {
    pub state: String,
    pub connect: String,
}

/// Builds the addresses of aerodrome `icao` at `server`, reached over TLS or
/// not as `tls` says.
pub fn endpoints_for(tls: bool, server: &str, key: &str, icao: &str) -> (r: Endpoints)
    ensures
        r.state@ == state_url(tls, host_part(server@), icao@),
        r.connect@ == connect_url(tls, host_part(server@), icao@, key@),
{
    let rest = match split_once(server, "://") {
        Some((_, rest)) => rest,
        None => String::from_str(server),
    };
    let host = trim_end(rest.as_str(), '/');
    let mut tail = String::from_str(if tls {
        "s"
    } else {
        ""
    });
    tail.append("://");
    tail.append(host.as_str());
    let mut state = String::from_str("http");
    state.append(tail.as_str());
    state.append("/state?airport=");
    state.append(icao);
    let mut connect = String::from_str("ws");
    connect.append(tail.as_str());
    connect.append("/connect?airport=");
    connect.append(icao);
    connect.append("&key=");
    connect.append(key);
    Endpoints { state, connect }
}

/// Builds the addresses of aerodrome `icao` at the server that `options`
/// names.
pub fn endpoints(options: &ConnectOptions, icao: &str) -> (r: Endpoints)
    ensures
        r.state@ == state_url(
            secure(parsed_scheme(options.server@), parsed_port(options.server@)),
            host_part(options.server@),
            icao@,
        ),
        r.connect@ == connect_url(
            secure(parsed_scheme(options.server@), parsed_port(options.server@)),
            host_part(options.server@),
            icao@,
            options.token@,
        ),
{
    let tls = is_secure(options.server.as_str());
    endpoints_for(tls, options.server.as_str(), options.token.as_str(), icao)
}

/// The message tells that `icao` is or is not controlled.
pub open spec fn says_control(m: Downstream, icao: Seq<char>, control: bool) -> bool {
    m matches Downstream::Control { icao: i, control: c } && i@ == icao && c == control
}

/// The message carries the patch `patch` for `icao`.
pub open spec fn says_patch(m: Downstream, icao: Seq<char>, patch: PatchView) -> bool {
    m matches Downstream::Patch { icao: i, patch: p } && i@ == icao && p@ == patch && p.wf()
}

/// The message reports the error `text` at `icao`.
pub open spec fn says_error(m: Downstream, icao: Seq<char>, text: Seq<char>, disconnect: bool) -> bool {
    m matches Downstream::Error { icao: i, message: Some(t), disconnect: d } && i@ == icao && t@
        == text && d == disconnect
}

/// The message lists the pilots `pilots` at `icao`.
pub open spec fn says_aircraft(m: Downstream, icao: Seq<char>, pilots: Seq<Seq<char>>) -> bool {
    m matches Downstream::Aircraft { icao: i, aircraft } && i@ == icao && texts(aircraft@)
        == pilots
}

/// The message carries a copy of the configuration `config`.
pub open spec fn says_config(m: Downstream, config: config::Aerodrome) -> bool {
    m matches Downstream::Config { data } && cloned(config, data)
}

/// Why the link to the session server was given up.
#[derive(Clone, Copy, Debug, PartialEq, Eq, Structural)]
pub enum Failure {
    /// The server asked to close.
    ClosedByServer,
    /// The stream ended without a close.
    ClosedUnexpectedly,
    /// Reading failed.
    Connection,
    /// Sending failed.
    Messaging,
    /// The link could not be opened.
    Connecting,
}

/// What the user is told of a failure, `detail` being the transport's words.
pub open spec fn failure_text(failure: Failure, detail: Seq<char>) -> Seq<char> {
    match failure {
        Failure::ClosedByServer => "server closed connection"@,
        Failure::ClosedUnexpectedly => "connection closed unexpectedly"@,
        Failure::Connection => "server connection error: "@ + detail,
        Failure::Messaging => "server messaging error: "@ + detail,
        Failure::Connecting => "server connection failed: "@ + detail,
    }
}

/// Builds `failure_text`.
pub fn describe(failure: Failure, detail: &str) -> (r: String)
    ensures
        r@ == failure_text(failure, detail@),
{
    match failure {
        Failure::ClosedByServer => String::from_str("server closed connection"),
        Failure::ClosedUnexpectedly => String::from_str("connection closed unexpectedly"),
        Failure::Connection => {
            let mut s = String::from_str("server connection error: ");
            s.append(detail);
            s
        },
        Failure::Messaging => {
            let mut s = String::from_str("server messaging error: ");
            s.append(detail);
            s
        },
        Failure::Connecting => {
            let mut s = String::from_str("server connection failed: ");
            s.append(detail);
            s
        },
    }
}

/// What is to be done after a change of tracking.
#[derive(Clone, Copy, Debug, PartialEq, Eq, Structural)]
pub enum TrackStep {
    /// Nothing.
    Idle,
    /// Nobody tracks the aerodrome any more: close this socket gracefully,
    /// if there is one.
    Close(Option<u64>),
    /// The first tracker arrived: open the link, then report the outcome
    /// with `connected` or `connect_failed`.
    Connect,
    /// Broadcast what `sync_clients` gives.
    Sync,
}

/// What is to be done with a patch from a local client.
#[derive(Debug)]
pub enum PatchStep {
    /// Send it to the session server.
    Forward(protocol::Upstream),
    /// It was merged here: broadcast it to the local subscribers.
    Broadcast(Downstream),
}

/// What is to be done on a message from the session server.
#[derive(Debug)]
pub enum Reaction {
    /// Nothing.
    Ignore,
    /// Send this back at once.
    Reply(protocol::Upstream),
    /// Broadcast this to the local subscribers.
    Broadcast(Downstream),
    /// The link is given up: stop reading, and broadcast the message if
    /// there is one.
    Dropped(Option<Downstream>),
}

/// The state of one aerodrome at the broker, as mathematics.
pub struct ManagerView {
    pub icao: Seq<char>,
    pub remote: bool,
    pub config: Option<config::Aerodrome>,
    pub controlling: bool,
    pub trackers: usize,
    pub state: PatchView,
    pub socket: Option<u64>,
}

impl ManagerView {
    /// The number of trackers after one more, or one fewer.
    pub open spec fn count_after(self, track: bool) -> usize {
        if track {
            if self.trackers < usize::MAX {
                (self.trackers + 1) as usize
            } else {
                self.trackers
            }
        } else if self.trackers > 0 {
            (self.trackers - 1) as usize
        } else {
            0
        }
    }

    /// The state after a change of tracking. When the last tracker leaves,
    /// the socket is given up, control is dropped and the state forgotten.
    pub open spec fn after_track(self, track: bool) -> ManagerView {
        if self.count_after(track) == 0 {
            ManagerView {
                trackers: 0,
                controlling: false,
                state: PatchView::empty(),
                socket: None,
                ..self
            }
        } else {
            ManagerView { trackers: self.count_after(track), ..self }
        }
    }

    /// What is to be done after a change of tracking.
    pub open spec fn track_step(self, track: bool) -> TrackStep {
        if self.count_after(track) == 0 {
            TrackStep::Close(self.socket)
        } else if !track {
            TrackStep::Idle
        } else if self.count_after(track) == 1 && self.remote && self.socket is None {
            TrackStep::Connect
        } else {
            TrackStep::Sync
        }
    }

    /// The state after the link `socket` was given up; another socket than
    /// the current one changes nothing.
    pub open spec fn dropped(self, socket: u64) -> ManagerView {
        if self.socket == Some(socket) {
            ManagerView { socket: None, ..self }
        } else {
            self
        }
    }

    /// The state after a message from the session server.
    pub open spec fn heard(self, socket: u64, msg: protocol::Downstream) -> ManagerView {
        match msg {
            protocol::Downstream::Close => self.dropped(socket),
            protocol::Downstream::InitialState { patch, .. } => ManagerView {
                state: self.state.merge(patch@),
                ..self
            },
            protocol::Downstream::SharedStateUpdate { patch, .. } => ManagerView {
                state: self.state.merge(patch@),
                ..self
            },
            _ => self,
        }
    }

    /// The state after a patch from a local client: merged here where there
    /// is no link, untouched where it is forwarded.
    pub open spec fn patched(self, patch: PatchView) -> ManagerView {
        if self.socket is Some {
            self
        } else {
            ManagerView { state: self.state.merge(patch), ..self }
        }
    }
}

/// When the last tracker leaves, the link is given up: the step closes the
/// socket that was open, or none where none was, and afterwards there is no
/// socket, no tracker, no control and no state.
pub proof fn lemma_last_untrack_closes(v: ManagerView)
    requires
        v.trackers <= 1,
    ensures
        v.track_step(false) == TrackStep::Close(v.socket),
        v.after_track(false).socket is None,
        v.after_track(false).trackers == 0,
        !v.after_track(false).controlling,
        v.after_track(false).state == PatchView::empty(),
{
}

/// Whether the patch of a message from the session server is well formed.
pub open spec fn net_wf(msg: protocol::Downstream) -> bool {
    match msg {
        protocol::Downstream::InitialState { patch, .. } => patch.wf(),
        protocol::Downstream::SharedStateUpdate { patch, .. } => patch.wf(),
        _ => true,
    }
}

/// The broker's record of one aerodrome.
#[derive(Debug)]
pub struct Manager {
    icao: String,
    server: Option<Endpoints>,
    config: Option<config::Aerodrome>,
    controlling: bool,
    trackers: usize,
    state: Patch,
    socket: Option<u64>,
}

impl View for Manager {
    type V = ManagerView;

    closed spec fn view(&self) -> ManagerView {
        ManagerView {
            icao: self.icao@,
            remote: self.server is Some,
            config: self.config,
            controlling: self.controlling,
            trackers: self.trackers,
            state: self.state@,
            socket: self.socket,
        }
    }
}

impl Manager {
    /// The state map is well formed.
    pub closed spec fn wf(&self) -> bool {
        self.state.wf()
    }

    /// The record of an aerodrome that nobody tracks yet. With `options` it
    /// will link to the session server they name.
    pub fn new(icao: &str, options: &Option<ConnectOptions>) -> (r: Manager)
        ensures
            r.wf(),
            r@ == (ManagerView {
                icao: icao@,
                remote: options is Some,
                config: None,
                controlling: false,
                trackers: 0,
                state: PatchView::empty(),
                socket: None,
            }),
            options matches Some(o) ==> r.spec_endpoints() matches Some(e) && e.state@
                == state_url(
                secure(parsed_scheme(o.server@), parsed_port(o.server@)),
                host_part(o.server@),
                icao@,
            ) && e.connect@ == connect_url(
                secure(parsed_scheme(o.server@), parsed_port(o.server@)),
                host_part(o.server@),
                icao@,
                o.token@,
            ),
    {
        let server = match options {
            Some(o) => Some(endpoints(o, icao)),
            None => None,
        };
        Manager {
            icao: String::from_str(icao),
            server,
            config: None,
            controlling: false,
            trackers: 0,
            state: Patch::default(),
            socket: None,
        }
    }

    /// The addresses at the session server, if the aerodrome links to one.
    pub closed spec fn spec_endpoints(&self) -> Option<Endpoints> {
        self.server
    }

    /// The addresses at the session server, if the aerodrome links to one.
    pub fn endpoints(&self) -> (r: Option<&Endpoints>)
        ensures
            match r {
                Some(e) => self.spec_endpoints() == Some(*e),
                None => self.spec_endpoints() is None,
            },
    {
        self.server.as_ref()
    }

    /// What a client that starts to track the aerodrome is sent: the
    /// configuration, who controls, and the state. Nothing before the
    /// configuration is loaded.
    pub fn sync_clients(&self) -> (r: Vec<Downstream>)
        requires
            self.wf(),
        ensures
            match self@.config {
                Some(c) => r.len() == 3 && says_config(r[0], c) && says_control(
                    r[1],
                    self@.icao,
                    self@.controlling,
                ) && says_patch(r[2], self@.icao, self@.state),
                None => r.len() == 0,
            },
    {
        let mut r: Vec<Downstream> = Vec::new();
        match &self.config {
            Some(c) => {
                r.push(Downstream::Config { data: c.clone() });
                r.push(Downstream::Control { icao: self.icao.clone(), control: self.controlling });
                r.push(Downstream::Patch { icao: self.icao.clone(), patch: self.state.clone() });
            },
            None => {},
        }
        r
    }

    /// Stores the configuration once it is loaded.
    pub fn set_config(&mut self, config: config::Aerodrome)
        requires
            old(self).wf(),
        ensures
            final(self).wf(),
            final(self)@ == (ManagerView { config: Some(config), ..old(self)@ }),
    {
        self.config = Some(config);
    }

    /// A client starts or stops tracking.
    pub fn track(&mut self, track: bool) -> (r: TrackStep)
        requires
            old(self).wf(),
        ensures
            final(self).wf(),
            final(self)@ == old(self)@.after_track(track),
            r == old(self)@.track_step(track),
    {
        let count = if track {
            if self.trackers < usize::MAX {
                self.trackers + 1
            } else {
                self.trackers
            }
        } else if self.trackers > 0 {
            self.trackers - 1
        } else {
            0
        };
        self.trackers = count;
        if count == 0 {
            let socket = self.socket.take();
            self.controlling = false;
            self.state = Patch::default();
            TrackStep::Close(socket)
        } else if !track {
            TrackStep::Idle
        } else if count == 1 && self.server.is_some() && self.socket.is_none() {
            TrackStep::Connect
        } else {
            TrackStep::Sync
        }
    }

    /// What is sent on a link before it is closed at the end of tracking:
    /// a close message where the step closes a link, nothing otherwise.
    pub fn farewell(step: TrackStep) -> (r: Vec<protocol::Upstream>)
        ensures
            r@.len() == (if step matches TrackStep::Close(Some(_)) {
                1nat
            } else {
                0nat
            }),
            forall|i: int| 0 <= i < r.len() ==> #[trigger] r[i] is Close,
    {
        let mut r: Vec<protocol::Upstream> = Vec::new();
        match step {
            TrackStep::Close(Some(_)) => {
                r.push(protocol::Upstream::Close);
            },
            _ => {},
        }
        r
    }

    /// The link was opened as `socket`.
    pub fn connected(&mut self, socket: u64)
        requires
            old(self).wf(),
        ensures
            final(self).wf(),
            final(self)@ == (ManagerView { socket: Some(socket), ..old(self)@ }),
    {
        self.socket = Some(socket);
    }

    /// The message that tells the local subscribers of a failure that ends
    /// their tracking.
    pub fn failed(&self, failure: Failure, detail: &str) -> (r: Downstream)
        ensures
            says_error(r, self@.icao, failure_text(failure, detail@), true),
    {
        Downstream::Error {
            icao: self.icao.clone(),
            message: Some(describe(failure, detail)),
            disconnect: true,
        }
    }

    /// The link `socket` is given up because of `failure`. Where `socket`
    /// is the current link it is forgotten and the subscribers are told;
    /// a link that was given up before changes nothing.
    pub fn disconnect_forced(&mut self, socket: u64, failure: Failure, detail: &str) -> (r: Option<
        Downstream,
    >)
        requires
            old(self).wf(),
        ensures
            final(self).wf(),
            final(self)@ == old(self)@.dropped(socket),
            match r {
                Some(m) => old(self)@.socket == Some(socket) && says_error(
                    m,
                    old(self)@.icao,
                    failure_text(failure, detail@),
                    true,
                ),
                None => old(self)@.socket != Some(socket),
            },
    {
        let current = match self.socket {
            Some(s) => s == socket,
            None => false,
        };
        if current {
            self.socket = None;
            Some(self.failed(failure, detail))
        } else {
            None
        }
    }

    /// A client takes or gives up control.
    pub fn control(&mut self, control: bool) -> (r: Downstream)
        requires
            old(self).wf(),
        ensures
            final(self).wf(),
            final(self)@ == (ManagerView { controlling: control, ..old(self)@ }),
            says_control(r, old(self)@.icao, control),
    {
        self.controlling = control;
        Downstream::Control { icao: self.icao.clone(), control }
    }

    /// A client changes the shared state.
    pub fn patch(&mut self, patch: Patch) -> (r: PatchStep)
        requires
            old(self).wf(),
            patch.wf(),
        ensures
            final(self).wf(),
            final(self)@ == old(self)@.patched(patch@),
            match r {
                PatchStep::Forward(m) => {
                    &&& old(self)@.socket is Some
                    &&& m matches protocol::Upstream::SharedStateUpdate { patch: p }
                    &&& p@ == patch@
                },
                PatchStep::Broadcast(m) => old(self)@.socket is None && says_patch(
                    m,
                    old(self)@.icao,
                    patch@,
                ),
            },
    {
        if self.socket.is_some() {
            PatchStep::Forward(protocol::Upstream::SharedStateUpdate { patch })
        } else {
            self.state.apply_patch(patch.clone());
            PatchStep::Broadcast(Downstream::Patch { icao: self.icao.clone(), patch })
        }
    }

    /// A client toggles scenery objects: one update for each to send to the
    /// session server, none where there is no link.
    pub fn scenery(&self, scenery: &StrMap<bool>) -> (r: Vec<protocol::Upstream>)
        requires
            scenery.wf(),
        ensures
            self@.socket is None ==> r.len() == 0,
            self@.socket is Some ==> r.len() == scenery.seq().len() && forall|i: int|
                0 <= i < r.len() ==> (#[trigger] r[i] matches protocol::Upstream::StateUpdate {
                    object_id,
                    state,
                } && object_id@ == scenery.seq()[i].0@ && state == scenery.seq()[i].1),
    {
        let mut r: Vec<protocol::Upstream> = Vec::new();
        if self.socket.is_some() {
            let n = scenery.len();
            let mut i: usize = 0;
            while i < n
                invariant
                    scenery.wf(),
                    n == scenery.seq().len(),
                    i <= n,
                    r.len() == i,
                    forall|j: int|
                        0 <= j < i ==> (#[trigger] r[j] matches protocol::Upstream::StateUpdate {
                            object_id,
                            state,
                        } && object_id@ == scenery.seq()[j].0@ && state == scenery.seq()[j].1),
                decreases n - i,
            {
                r.push(
                    protocol::Upstream::StateUpdate {
                        object_id: scenery.key_at(i).clone(),
                        state: *scenery.value_at(i),
                    },
                );
                i += 1;
            }
        }
        r
    }

    /// The session server reports the pilots at the aerodrome.
    pub fn aircraft(&self, pilots: Vec<String>) -> (r: Downstream)
        ensures
            says_aircraft(r, self@.icao, texts(pilots@)),
    {
        Downstream::Aircraft { icao: self.icao.clone(), aircraft: pilots }
    }

    /// A message arrives from the session server over the link `socket`. A
    /// heartbeat is acknowledged; a close gives the link up; the initial
    /// state and updates of the shared state are merged and passed on;
    /// everything else is passed over.
    pub fn on_message(&mut self, socket: u64, msg: protocol::Downstream) -> (r: Reaction)
        requires
            old(self).wf(),
            net_wf(msg),
        ensures
            final(self).wf(),
            final(self)@ == old(self)@.heard(socket, msg),
            match msg {
                protocol::Downstream::Heartbeat => r matches Reaction::Reply(
                    protocol::Upstream::HeartbeatAck,
                ),
                protocol::Downstream::Close => r matches Reaction::Dropped(m) && match m {
                    Some(m) => old(self)@.socket == Some(socket) && says_error(
                        m,
                        old(self)@.icao,
                        failure_text(Failure::ClosedByServer, Seq::empty()),
                        true,
                    ),
                    None => old(self)@.socket != Some(socket),
                },
                protocol::Downstream::InitialState { patch, .. } => r matches Reaction::Broadcast(m)
                    && says_patch(m, old(self)@.icao, patch@),
                protocol::Downstream::SharedStateUpdate { patch, .. } => r matches Reaction::Broadcast(
                    m,
                ) && says_patch(m, old(self)@.icao, patch@),
                _ => r is Ignore,
            },
    {
        match msg {
            protocol::Downstream::Heartbeat => Reaction::Reply(protocol::Upstream::HeartbeatAck),
            protocol::Downstream::Close => {
                let told = self.disconnect_forced(socket, Failure::ClosedByServer, "");
                proof {
                    reveal_strlit("");
                    assert(""@ =~= Seq::<char>::empty());
                }
                Reaction::Dropped(told)
            },
            protocol::Downstream::InitialState { patch, .. } => {
                self.state.apply_patch(patch.clone());
                Reaction::Broadcast(Downstream::Patch { icao: self.icao.clone(), patch })
            },
            protocol::Downstream::SharedStateUpdate { patch, .. } => {
                self.state.apply_patch(patch.clone());
                Reaction::Broadcast(Downstream::Patch { icao: self.icao.clone(), patch })
            },
            _ => Reaction::Ignore,
        }
    }
}

/// How long a read from the socket waits, in milliseconds.
pub const SOCKET_POLL_TIMEOUT: u64 = 100;

/// How long the link stays quiet before the state is polled, in
/// milliseconds.
pub const STATE_POLL_INTERVAL: u64 = 30_000;

/// When the state of an aerodrome was last heard of or polled.
#[derive(Clone, Copy, Debug, PartialEq, Eq, Structural)]
pub struct Poller {
    pub last: u64,
}

impl Poller {
    /// Whether the state is to be polled at `now`: more than the interval
    /// has passed since `last`.
    pub open spec fn due(self, now: u64) -> bool {
        now - self.last > STATE_POLL_INTERVAL
    }

    /// A poller that starts to wait at `now`.
    pub fn new(now: u64) -> (r: Poller)
        ensures
            r.last == now,
    {
        Poller { last: now }
    }

    /// A message arrived at `now`: the wait starts again.
    pub fn on_inbound(&mut self, now: u64)
        ensures
            final(self).last == now,
    {
        self.last = now;
    }

    /// A read timed out at `now`. Tells whether to poll the state, and
    /// starts the wait again where it does.
    pub fn on_timeout(&mut self, now: u64) -> (poll: bool)
        ensures
            poll == old(self).due(now),
            final(self).last == (if poll {
                now
            } else {
                old(self).last
            }),
    {
        if now > self.last && now - self.last > STATE_POLL_INTERVAL {
            self.last = now;
            true
        } else {
            false
        }
    }
}

/// What a client stream tracks, so that it is sent only what concerns it.
#[derive(Debug)]
pub struct Stream {
    listed: Vec<String>,
}

/// What is to be done with a broadcast message on one stream.
#[derive(Debug)]
pub struct Delivery {
    /// Whether the stream is sent the message.
    pub deliver: bool,
    /// What the broker is told in the stream's name.
    pub untrack: Option<Upstream>,
}

impl Stream {
    /// The aerodromes that the stream tracks.
    pub closed spec fn view(&self) -> Set<Seq<char>> {
        Set::new(|icao: Seq<char>| exists|i: int| 0 <= i < self.listed.len() && self.listed[i]@ == icao)
    }

    /// No aerodrome is listed twice.
    pub closed spec fn wf(&self) -> bool {
        forall|i: int, j: int|
            0 <= i < j < self.listed.len() ==> self.listed[i]@ != self.listed[j]@
    }

    /// A stream that tracks nothing.
    pub fn new() -> (r: Stream)
        ensures
            r.wf(),
            r.view() == Set::<Seq<char>>::empty(),
    {
        let r = Stream { listed: Vec::new() };
        assert(r.view() =~= Set::<Seq<char>>::empty());
        r
    }

    fn position(&self, icao: &String) -> (r: Option<usize>)
        ensures
            match r {
                Some(i) => i < self.listed.len() && self.listed[i as int]@ == icao@
                    && self.view().contains(icao@),
                None => !self.view().contains(icao@),
            },
    {
        let mut i: usize = 0;
        while i < self.listed.len()
            invariant
                i <= self.listed.len(),
                forall|j: int| 0 <= j < i ==> self.listed[j]@ != icao@,
            decreases self.listed.len() - i,
        {
            if self.listed[i] == *icao {
                return Some(i);
            }
            i += 1;
        }
        None
    }

    fn insert(&mut self, icao: String) -> (fresh: bool)
        requires
            old(self).wf(),
        ensures
            final(self).wf(),
            fresh == !old(self).view().contains(icao@),
            final(self).view() == old(self).view().insert(icao@),
    {
        match self.position(&icao) {
            Some(i) => {
                assert(self.view() =~= self.view().insert(icao@));
                false
            },
            None => {
                let ghost before = self.listed@;
                self.listed.push(icao);
                assert forall|k: Seq<char>| self.view().contains(k) == old(self).view().insert(
                    icao@,
                ).contains(k) by {
                    if old(self).view().contains(k) {
                        let i = choose|i: int| 0 <= i < before.len() && before[i]@ == k;
                        assert(self.listed[i]@ == k);
                    }
                    if k == icao@ {
                        assert(self.listed[before.len() as int]@ == k);
                    }
                }
                assert(self.view() =~= old(self).view().insert(icao@));
                true
            },
        }
    }

    fn remove(&mut self, icao: &String) -> (found: bool)
        requires
            old(self).wf(),
        ensures
            final(self).wf(),
            found == old(self).view().contains(icao@),
            final(self).view() == old(self).view().remove(icao@),
    {
        match self.position(icao) {
            Some(i) => {
                let ghost before = self.listed@;
                self.listed.remove(i);
                assert forall|k: Seq<char>| self.view().contains(k) == old(self).view().remove(
                    icao@,
                ).contains(k) by {
                    if self.view().contains(k) {
                        let j = choose|j: int| 0 <= j < self.listed.len() && self.listed[j]@ == k;
                        let j0 = if j < i { j } else { j + 1 };
                        assert(before[j0]@ == k);
                        if j0 < i {
                            assert(before[j0]@ != before[i as int]@);
                        } else {
                            assert(before[i as int]@ != before[j0]@);
                        }
                    }
                    if old(self).view().contains(k) && k != icao@ {
                        let j = choose|j: int| 0 <= j < before.len() && before[j]@ == k;
                        let j1 = if j < i { j } else { j - 1 };
                        assert(self.listed[j1]@ == k);
                    }
                }
                assert(self.view() =~= old(self).view().remove(icao@));
                assert(old(self).view().contains(icao@)) by {
                    assert(before[i as int]@ == icao@);
                }
                true
            },
            None => {
                assert(self.view() =~= old(self).view().remove(icao@));
                false
            },
        }
    }

    /// A message arrives from the client. It is passed on to the broker,
    /// except for `Init` and for a change of tracking that changes nothing.
    pub fn on_upstream(&mut self, msg: Upstream) -> (r: Option<Upstream>)
        requires
            old(self).wf(),
        ensures
            final(self).wf(),
            match msg {
                Upstream::Init => r is None && final(self).view() == old(self).view(),
                Upstream::Track { icao, track } => {
                    &&& final(self).view() == (if track {
                        old(self).view().insert(icao@)
                    } else {
                        old(self).view().remove(icao@)
                    })
                    &&& r is Some <==> track != old(self).view().contains(icao@)
                    &&& r matches Some(m) ==> m == msg
                },
                _ => r == Some(msg) && final(self).view() == old(self).view(),
            },
    {
        match msg {
            Upstream::Init => None,
            Upstream::Track { icao, track } => {
                let changed = if track {
                    self.insert(icao.clone())
                } else {
                    self.remove(&icao)
                };
                if changed {
                    Some(Upstream::Track { icao, track })
                } else {
                    None
                }
            },
            other => Some(other),
        }
    }

    /// A message is broadcast. The stream gets it only where it tracks the
    /// aerodrome; an error that disconnects also ends the tracking, and the
    /// broker is told so.
    pub fn on_broadcast(&mut self, msg: &Downstream) -> (r: Delivery)
        requires
            old(self).wf(),
        ensures
            final(self).wf(),
            r.deliver == old(self).view().contains(msg.spec_icao()),
            match *msg {
                Downstream::Error { icao, message, disconnect } => if disconnect && r.deliver {
                    &&& final(self).view() == old(self).view().remove(icao@)
                    &&& r.untrack matches Some(Upstream::Track { icao: i, track: t })
                    &&& i@ == icao@
                    &&& !t
                } else {
                    final(self).view() == old(self).view() && r.untrack is None
                },
                _ => final(self).view() == old(self).view() && r.untrack is None,
            },
    {
        let icao = msg.icao();
        if self.position(icao).is_none() {
            return Delivery { deliver: false, untrack: None };
        }
        match msg {
            Downstream::Error { icao, disconnect, .. } => {
                if *disconnect {
                    self.remove(icao);
                    Delivery {
                        deliver: true,
                        untrack: Some(Upstream::Track { icao: icao.clone(), track: false }),
                    }
                } else {
                    Delivery { deliver: true, untrack: None }
                }
            },
            _ => Delivery { deliver: true, untrack: None },
        }
    }

    /// The stream has ended: the end of tracking of every aerodrome it
    /// tracked, for the broker.
    pub fn on_closed(&mut self) -> (r: Vec<Upstream>)
        requires
            old(self).wf(),
        ensures
            final(self).wf(),
            final(self).view() == Set::<Seq<char>>::empty(),
            forall|i: int|
                0 <= i < r.len() ==> (#[trigger] r[i] matches Upstream::Track { icao, track }
                    && !track && old(self).view().contains(icao@)),
            forall|k: Seq<char>|
                old(self).view().contains(k) ==> exists|i: int|
                    0 <= i < r.len() && (#[trigger] r[i] matches Upstream::Track { icao, track }
                        && icao@ == k),
            forall|i: int, j: int|
                0 <= i < j < r.len() ==> r[i].spec_icao() != r[j].spec_icao(),
    {
        let mut r: Vec<Upstream> = Vec::new();
        let ghost all = self.listed@;
        while self.listed.len() > 0
            invariant
                forall|i: int, j: int| 0 <= i < j < all.len() ==> all[i]@ != all[j]@,
                self.listed@.len() + r.len() == all.len(),
                forall|i: int| 0 <= i < self.listed@.len() ==> self.listed@[i] == all[i],
                forall|i: int|
                    0 <= i < r.len() ==> (#[trigger] r[i] matches Upstream::Track { icao, track }
                        && !track && icao == all[all.len() - 1 - i]),
            decreases self.listed.len(),
        {
            let icao = self.listed.pop().unwrap();
            r.push(Upstream::Track { icao, track: false });
        }
        proof {
            assert forall|i: int, j: int| 0 <= i < j < r.len() implies r[i].spec_icao()
                != r[j].spec_icao() by {
                assert(r[i] matches Upstream::Track { icao, track } && icao == all[all.len() - 1
                    - i]);
                assert(r[j] matches Upstream::Track { icao, track } && icao == all[all.len() - 1
                    - j]);
                assert(all[all.len() - 1 - j]@ != all[all.len() - 1 - i]@);
            }
            assert(self.view() =~= Set::<Seq<char>>::empty());
            assert forall|i: int| 0 <= i < r.len() implies (#[trigger] r[i] matches Upstream::Track {
                icao,
                track,
            } && !track && old(self).view().contains(icao@)) by {
                assert(all[all.len() - 1 - i]@ == all[all.len() - 1 - i]@);
            }
            assert forall|k: Seq<char>| old(self).view().contains(k) implies exists|i: int|
                0 <= i < r.len() && (#[trigger] r[i] matches Upstream::Track { icao, track }
                    && icao@ == k) by {
                let j = choose|j: int| 0 <= j < all.len() && all[j]@ == k;
                let i = all.len() - 1 - j;
                assert(r[i] matches Upstream::Track { icao, track } && icao@ == k);
            }
        }
        r
    }
}

} // verus!
