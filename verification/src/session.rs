//! The session server: who may connect, what a client's message does to an
//! aerodrome's state, and what is sent in return.

use crate::json::{merge, merged, Json, JsonView};
use crate::protocol::{Downstream, SceneryObject, Upstream};
use crate::strmap::StrMap;
use crate::text::{
    eq_ignore_case, is_text, opt_str, same_ignoring_case, split, split_all, split_first,
    split_once, str_is, texts,
};
use tokio_tungstenite::tungstenite::handshake::derive_accept_key;
use vstd::prelude::*;
use vstd::string::*;

verus! {

/// What a client may do.
#[derive(Clone, Copy, Debug, PartialEq, Eq, Structural)]
pub enum Role {
    Controller,
    Observer,
}

/// The keys that the server accepts.
#[derive(Clone, Debug)]
pub struct Access {
    pub controller_keys: Vec<String>,
    pub observer_keys: Vec<String>,
}

/// Whether `keys` holds the text `key`.
pub open spec fn holds(keys: Seq<String>, key: Seq<char>) -> bool {
    exists|i: int| 0 <= i < keys.len() && (#[trigger] keys[i])@ == key
}

/// Tests `holds`.
pub fn has_key(keys: &Vec<String>, key: &str) -> (r: bool)
    ensures
        r == holds(keys@, key@),
{
    let wanted = String::from_str(key);
    let mut i: usize = 0;
    while i < keys.len()
        invariant
            i <= keys.len(),
            wanted@ == key@,
            forall|j: int| 0 <= j < i ==> (#[trigger] keys[j])@ != key@,
        decreases keys.len() - i,
    {
        if keys[i] == wanted {
            return true;
        }
        i += 1;
    }
    false
}

impl Access {
    /// The role that `key` gives: controller where it is a controller key,
    /// else observer where it is an observer key, else none.
    pub open spec fn spec_role_of(&self, key: Seq<char>) -> Option<Role> {
        if holds(self.controller_keys@, key) {
            Some(Role::Controller)
        } else if holds(self.observer_keys@, key) {
            Some(Role::Observer)
        } else {
            None
        }
    }

    /// The role that `key` gives.
    pub fn role_of(&self, key: &str) -> (r: Option<Role>)
        ensures
            r == self.spec_role_of(key@),
    {
        if has_key(&self.controller_keys, key) {
            Some(Role::Controller)
        } else if has_key(&self.observer_keys, key) {
            Some(Role::Observer)
        } else {
            None
        }
    }

    /// Whether some key gives both roles.
    pub fn overlapping(&self) -> (r: bool)
        ensures
            r == exists|i: int|
                0 <= i < self.controller_keys.len() && holds(
                    self.observer_keys@,
                    (#[trigger] self.controller_keys[i])@,
                ),
    {
        let mut i: usize = 0;
        while i < self.controller_keys.len()
            invariant
                i <= self.controller_keys.len(),
                forall|j: int|
                    0 <= j < i ==> !holds(self.observer_keys@, (#[trigger] self.controller_keys[j])@),
            decreases self.controller_keys.len() - i,
        {
            if has_key(&self.observer_keys, self.controller_keys[i].as_str()) {
                return true;
            }
            i += 1;
        }
        false
    }
}

/// The value of the last of the first `len` pieces that reads `name=value`.
pub open spec fn last_param(pieces: Seq<Seq<char>>, name: Seq<char>, len: int) -> Option<Seq<char>>
    decreases len,
{
    if len <= 0 {
        None
    } else {
        match split_first(pieces[len - 1], "="@) {
            Some((k, v)) => if k == name {
                Some(v)
            } else {
                last_param(pieces, name, len - 1)
            },
            None => last_param(pieces, name, len - 1),
        }
    }
}

/// The value of the first piece from `from` on that reads `name=value`.
pub open spec fn first_param(pieces: Seq<Seq<char>>, name: Seq<char>, from: int) -> Option<Seq<char>>
    decreases pieces.len() - from,
{
    if from < 0 || from >= pieces.len() {
        None
    } else {
        match split_first(pieces[from], "="@) {
            Some((k, v)) => if k == name {
                Some(v)
            } else {
                first_param(pieces, name, from + 1)
            },
            None => first_param(pieces, name, from + 1),
        }
    }
}

/// The airport and the key that a connect query names: the last of each.
pub open spec fn connect_query(query: Seq<char>) -> Option<(Seq<char>, Seq<char>)> {
    let pieces = split_all(query, "&"@);
    match (
        last_param(pieces, "airport"@, pieces.len() as int),
        last_param(pieces, "key"@, pieces.len() as int),
    ) {
        (Some(a), Some(k)) => Some((a, k)),
        _ => None,
    }
}

/// The airport that a state query names: the first.
pub open spec fn state_query(query: Seq<char>) -> Option<Seq<char>> {
    first_param(split_all(query, "&"@), "airport"@, 0)
}

fn find_last(pieces: &Vec<String>, name: &str) -> (r: Option<String>)
    ensures
        match r {
            Some(v) => last_param(texts(pieces@), name@, pieces.len() as int) == Some(v@),
            None => last_param(texts(pieces@), name@, pieces.len() as int) is None,
        },
{
    let ghost all = texts(pieces@);
    let mut i: usize = pieces.len();
    while i > 0
        invariant
            i <= pieces.len(),
            all == texts(pieces@),
            last_param(all, name@, pieces.len() as int) == last_param(all, name@, i as int),
        decreases i,
    {
        assert(all[i - 1] == pieces[i - 1]@);
        match split_once(pieces[i - 1].as_str(), "=") {
            Some((k, v)) => {
                if is_text(&k, name) {
                    return Some(v);
                }
            },
            None => {},
        }
        i -= 1;
    }
    None
}

fn find_first(pieces: &Vec<String>, name: &str) -> (r: Option<String>)
    ensures
        match r {
            Some(v) => first_param(texts(pieces@), name@, 0) == Some(v@),
            None => first_param(texts(pieces@), name@, 0) is None,
        },
{
    let ghost all = texts(pieces@);
    let mut i: usize = 0;
    while i < pieces.len()
        invariant
            i <= pieces.len(),
            all == texts(pieces@),
            first_param(all, name@, 0) == first_param(all, name@, i as int),
        decreases pieces.len() - i,
    {
        assert(all[i as int] == pieces[i as int]@);
        match split_once(pieces[i].as_str(), "=") {
            Some((k, v)) => {
                if is_text(&k, name) {
                    return Some(v);
                }
            },
            None => {},
        }
        i += 1;
    }
    None
}

/// Reads the airport and the key of a connect query.
pub fn connect_params(query: &str) -> (r: Option<(String, String)>)
    ensures
        match r {
            Some((a, k)) => connect_query(query@) == Some((a@, k@)),
            None => connect_query(query@) is None,
        },
{
    let pieces = split(query, "&");
    match (find_last(&pieces, "airport"), find_last(&pieces, "key")) {
        (Some(a), Some(k)) => Some((a, k)),
        _ => None,
    }
}

/// Reads the airport of a state query.
pub fn state_airport(query: &str) -> (r: Option<String>)
    ensures
        match r {
            Some(a) => state_query(query@) == Some(a@),
            None => state_query(query@) is None,
        },
{
    let pieces = split(query, "&");
    find_first(&pieces, "airport")
}

/// The accept key that `derive_accept_key` makes of a request key: the
/// base64 text of a SHA-1 digest, a function of the key alone.
pub uninterp spec fn accept_key_of(request_key: Seq<u8>) -> Seq<char>;

/// `tungstenite::handshake::derive_accept_key` hashes the request key with
/// the protocol's fixed identifier and encodes the digest. The contract only
/// gives the result its name.
pub assume_specification[ derive_accept_key ](request_key: &[u8]) -> (r: String)
    ensures
        r@ == accept_key_of(request_key@),
;

/// What the server looks at in a request to connect.
#[derive(Clone, Debug)]
pub struct Handshake {
    /// The method is GET.
    pub get: bool,
    /// The version is HTTP/1.1 or later.
    pub http11: bool,
    /// The `Connection` header, where it is text.
    pub connection: Option<String>,
    /// The `Upgrade` header, where it is text.
    pub upgrade: Option<String>,
    /// The `Sec-WebSocket-Version` header, where it is text.
    pub version: Option<String>,
    /// The `Sec-WebSocket-Key` header.
    pub key: Option<Vec<u8>>,
}

/// Whether one of the protocols that an `Upgrade` header lists, separated
/// by commas or spaces, is `websocket`.
pub open spec fn offers_websocket(upgrade: Seq<char>) -> bool {
    exists|i: int, j: int|
        0 <= i < split_all(upgrade, ","@).len() && 0 <= j < split_all(
            split_all(upgrade, ","@)[i],
            " "@,
        ).len() && same_ignoring_case(
            #[trigger] split_all(split_all(upgrade, ","@)[i], " "@)[j],
            "websocket"@,
        )
}

/// Tests `offers_websocket`.
pub fn lists_websocket(upgrade: &str) -> (r: bool)
    ensures
        r == offers_websocket(upgrade@),
{
    let groups = split(upgrade, ",");
    let ghost outer = split_all(upgrade@, ","@);
    let mut i: usize = 0;
    while i < groups.len()
        invariant
            i <= groups.len(),
            texts(groups@) == outer,
            outer == split_all(upgrade@, ","@),
            forall|a: int, b: int|
                0 <= a < i && 0 <= b < split_all(outer[a], " "@).len() ==> !same_ignoring_case(
                    #[trigger] split_all(outer[a], " "@)[b],
                    "websocket"@,
                ),
        decreases groups.len() - i,
    {
        assert(outer[i as int] == groups[i as int]@);
        let tokens = split(groups[i].as_str(), " ");
        let ghost inner = split_all(outer[i as int], " "@);
        let mut j: usize = 0;
        while j < tokens.len()
            invariant
                j <= tokens.len(),
                i < groups.len(),
                texts(tokens@) == inner,
                inner == split_all(outer[i as int], " "@),
                outer == split_all(upgrade@, ","@),
                outer.len() == groups.len(),
                forall|b: int| 0 <= b < j ==> !same_ignoring_case(#[trigger] inner[b], "websocket"@),
            decreases tokens.len() - j,
        {
            assert(inner[j as int] == tokens[j as int]@);
            if eq_ignore_case(tokens[j].as_str(), "websocket") {
                assert(same_ignoring_case(
                    split_all(split_all(upgrade@, ","@)[i as int], " "@)[j as int],
                    "websocket"@,
                ));
                return true;
            }
            j += 1;
        }
        i += 1;
    }
    false
}

impl Handshake {
    /// Whether the request asks to upgrade to a WebSocket of version 13.
    pub open spec fn is_upgrade(&self) -> bool {
        &&& self.get
        &&& self.http11
        &&& self.connection matches Some(c)
        &&& same_ignoring_case(c@, "upgrade"@)
        &&& self.upgrade matches Some(u)
        &&& offers_websocket(u@)
        &&& self.version matches Some(v)
        &&& v@ == "13"@
    }

    /// Tests `is_upgrade`.
    pub fn wants_upgrade(&self) -> (r: bool)
        ensures
            r == self.is_upgrade(),
    {
        if !self.get || !self.http11 {
            return false;
        }
        let connection = match &self.connection {
            Some(c) => eq_ignore_case(c.as_str(), "upgrade"),
            None => false,
        };
        let upgrade = match &self.upgrade {
            Some(u) => lists_websocket(u.as_str()),
            None => false,
        };
        let version = match &self.version {
            Some(v) => is_text(v, "13"),
            None => false,
        };
        connection && upgrade && version
    }

    /// The accept key to answer with, where the request asks to upgrade and
    /// carries a key.
    pub fn accept(&self) -> (r: Option<String>)
        ensures
            match r {
                Some(a) => {
                    &&& self.is_upgrade()
                    &&& self.key matches Some(k)
                    &&& a@ == accept_key_of(k@)
                },
                None => !self.is_upgrade() || self.key is None,
            },
    {
        if !self.wants_upgrade() {
            return None;
        }
        match &self.key {
            Some(k) => Some(derive_accept_key(k.as_slice())),
            None => None,
        }
    }
}

/// What the server answers a request with.
#[derive(Clone, Debug)]
pub enum Answer {
    /// 404: the path is none of the server's.
    NotFound,
    /// 400: the request lacks what its path asks for.
    BadRequest,
    /// 401: the key gives no role.
    Unauthorized,
    /// 101: the connection becomes a session at `icao` in the role `role`,
    /// and the response carries the accept key.
    Upgrade { accept: String, icao: String, role: Role },
    /// 200: the state of `airport` is reported.
    State { airport: String },
}

/// What an `Answer` says.
pub enum AnswerView {
    NotFound,
    BadRequest,
    Unauthorized,
    Upgrade { accept: Seq<char>, icao: Seq<char>, role: Role },
    State { airport: Seq<char> },
}

impl View for Answer {
    type V = AnswerView;

    open spec fn view(&self) -> AnswerView {
        match *self {
            Answer::NotFound => AnswerView::NotFound,
            Answer::BadRequest => AnswerView::BadRequest,
            Answer::Unauthorized => AnswerView::Unauthorized,
            Answer::Upgrade { accept, icao, role } => AnswerView::Upgrade {
                accept: accept@,
                icao: icao@,
                role,
            },
            Answer::State { airport } => AnswerView::State { airport: airport@ },
        }
    }
}

/// The answer to a request for `/connect`: a bad request unless it asks to
/// upgrade, carries a key for the handshake and names an airport and a key;
/// then unauthorized unless the key gives a role; then the upgrade.
pub open spec fn connect_answer(query: Option<Seq<char>>, shake: Handshake, access: Access) -> AnswerView {
    if !shake.is_upgrade() || shake.key is None || query is None || connect_query(query->0)
        is None {
        AnswerView::BadRequest
    } else {
        let (icao, key) = connect_query(query->0)->0;
        match access.spec_role_of(key) {
            None => AnswerView::Unauthorized,
            Some(role) => AnswerView::Upgrade {
                accept: accept_key_of(shake.key->0@),
                icao,
                role,
            },
        }
    }
}

/// The answer to a request for `/state`: the state of the airport that the
/// query names first, on a GET; a bad request otherwise.
pub open spec fn state_answer(get: bool, query: Option<Seq<char>>) -> AnswerView {
    if !get || query is None {
        AnswerView::BadRequest
    } else {
        match state_query(query->0) {
            Some(airport) => AnswerView::State { airport },
            None => AnswerView::BadRequest,
        }
    }
}

/// The answer to a request.
pub open spec fn answered(
    path: Seq<char>,
    get: bool,
    query: Option<Seq<char>>,
    shake: Handshake,
    access: Access,
) -> AnswerView {
    if path == "/connect"@ {
        connect_answer(query, shake, access)
    } else if path == "/state"@ {
        state_answer(get, query)
    } else {
        AnswerView::NotFound
    }
}

/// Decides what a request is answered with. `get` tells whether the method
/// is GET, `query` is what follows the `?` of the address, and `shake` is
/// what the request says of an upgrade.
pub fn answer(path: &str, get: bool, query: Option<&str>, shake: &Handshake, access: &Access) -> (r:
    Answer)
    ensures
        r@ == answered(path@, get, opt_str(query), *shake, *access),
{
    if str_is(path, "/connect") {
        let accept = shake.accept();
        let params = match query {
            Some(q) => connect_params(q),
            None => None,
        };
        match (accept, params) {
            (Some(accept), Some((icao, key))) => match access.role_of(key.as_str()) {
                Some(role) => Answer::Upgrade { accept, icao, role },
                None => Answer::Unauthorized,
            },
            _ => Answer::BadRequest,
        }
    } else if str_is(path, "/state") {
        if !get {
            return Answer::BadRequest;
        }
        match query {
            Some(q) => match state_airport(q) {
                Some(airport) => Answer::State { airport },
                None => Answer::BadRequest,
            },
            None => Answer::BadRequest,
        }
    } else {
        Answer::NotFound
    }
}

/// The state of one aerodrome at the session server, as mathematics.
pub struct SessionView {
    pub controllers: Set<Seq<char>>,
    pub objects: Map<Seq<char>, bool>,
    pub state: JsonView,
}

/// What the server does on a client's message.
#[derive(Debug)]
pub struct Outcome {
    /// What the client itself is sent.
    pub reply: Option<Downstream<Json>>,
    /// What every client of the aerodrome is sent.
    pub broadcast: Option<Downstream<Json>>,
    /// Whether the connection is closed.
    pub close: bool,
}

/// The message reports the error `text`.
pub open spec fn is_error(m: Downstream<Json>, text: Seq<char>) -> bool {
    m matches Downstream::Error { message } && message@ == text
}

/// What the state endpoint reports: the protocol's `State` with the
/// scenery objects.
#[derive(Clone, Debug)]
pub struct Report {
    pub airport: String,
    pub controllers: Vec<String>,
    pub pilots: Vec<String>,
    pub objects: Vec<SceneryObject>,
    pub offline: bool,
}

impl SessionView {
    /// The state of an aerodrome that nobody has connected to.
    pub open spec fn empty() -> SessionView {
        SessionView { controllers: Set::empty(), objects: Map::empty(), state: JsonView::Null }
    }

    /// The state after a client with the role `role` has connected as `id`.
    pub open spec fn joined(self, id: Seq<char>, role: Role) -> SessionView {
        match role {
            Role::Controller => SessionView { controllers: self.controllers.insert(id), ..self },
            Role::Observer => self,
        }
    }

    /// The state after the client `id` has gone. When the last controller
    /// goes, the objects and the shared state are forgotten.
    pub open spec fn left(self, id: Seq<char>, role: Role) -> SessionView {
        match role {
            Role::Controller => if self.controllers.contains(id) && self.controllers.remove(id)
                == Set::<Seq<char>>::empty() {
                SessionView::empty()
            } else {
                SessionView { controllers: self.controllers.remove(id), ..self }
            },
            Role::Observer => self,
        }
    }

    /// The state after a message of a client that is a controller or not.
    pub open spec fn handled(self, controller: bool, msg: Upstream<Json>) -> SessionView {
        match msg {
            Upstream::StateUpdate { object_id, state } => if controller {
                SessionView { objects: self.objects.insert(object_id@, state), ..self }
            } else {
                self
            },
            Upstream::SharedStateUpdate { patch } => if controller {
                SessionView { state: merged(self.state, patch@), ..self }
            } else {
                self
            },
            _ => self,
        }
    }
}

/// One aerodrome at the session server.
#[derive(Debug)]
pub struct Aerodrome {
    controllers: Vec<String>,
    objects: StrMap<bool>,
    state: Json,
}

impl View for Aerodrome {
    type V = SessionView;

    closed spec fn view(&self) -> SessionView {
        SessionView {
            controllers: Set::new(|id: Seq<char>| holds(self.controllers@, id)),
            objects: self.objects@,
            state: self.state@,
        }
    }
}

impl Aerodrome {
    /// No controller is listed twice and the objects are well formed.
    pub closed spec fn wf(&self) -> bool {
        &&& self.objects.wf()
        &&& forall|i: int, j: int|
            0 <= i < j < self.controllers.len() ==> self.controllers[i]@ != self.controllers[j]@
    }

    /// An aerodrome that nobody has connected to.
    pub fn new() -> (r: Aerodrome)
        ensures
            r.wf(),
            r@ == SessionView::empty(),
    {
        let r = Aerodrome { controllers: Vec::new(), objects: StrMap::new(), state: Json::Null };
        assert(r@.controllers =~= Set::<Seq<char>>::empty());
        r
    }

    fn position(&self, id: &String) -> (r: Option<usize>)
        ensures
            match r {
                Some(i) => i < self.controllers.len() && self.controllers[i as int]@ == id@,
                None => !holds(self.controllers@, id@),
            },
    {
        let mut i: usize = 0;
        while i < self.controllers.len()
            invariant
                i <= self.controllers.len(),
                forall|j: int| 0 <= j < i ==> (#[trigger] self.controllers[j])@ != id@,
            decreases self.controllers.len() - i,
        {
            if self.controllers[i] == *id {
                return Some(i);
            }
            i += 1;
        }
        None
    }

    /// The objects as a list, in the order they were first set.
    pub fn scenery(&self) -> (r: Vec<SceneryObject>)
        requires
            self.wf(),
        ensures
            r.len() == self.spec_objects().len(),
            forall|i: int|
                0 <= i < r.len() ==> (#[trigger] r[i]).id@ == self.spec_objects()[i].0@ && r[i].state
                    == self.spec_objects()[i].1,
    {
        let mut r: Vec<SceneryObject> = Vec::new();
        let n = self.objects.len();
        let mut i: usize = 0;
        while i < n
            invariant
                self.objects.wf(),
                n == self.objects.seq().len(),
                i <= n,
                r.len() == i,
                forall|j: int|
                    0 <= j < i ==> (#[trigger] r[j]).id@ == self.objects.seq()[j].0@ && r[j].state
                        == self.objects.seq()[j].1,
            decreases n - i,
        {
            r.push(
                SceneryObject {
                    id: self.objects.key_at(i).clone(),
                    state: *self.objects.value_at(i),
                },
            );
            i += 1;
        }
        r
    }

    /// The objects in the order they were first set.
    pub closed spec fn spec_objects(&self) -> Seq<(String, bool)> {
        self.objects.seq()
    }

    /// The objects of `spec_objects` are those of the view.
    pub proof fn lemma_objects(&self)
        requires
            self.wf(),
        ensures
            self@.objects == crate::strmap::map_of(self.spec_objects()),
            crate::strmap::distinct_keys(self.spec_objects()),
    {
    }

    /// A client connects as `id`. Hands back what the client is sent first,
    /// and what every client is told where a controller connects.
    pub fn connect(&mut self, id: &String, role: Role) -> (r: (Downstream<Json>, Option<
        Downstream<Json>,
    >))
        requires
            old(self).wf(),
        ensures
            final(self).wf(),
            final(self)@ == old(self)@.joined(id@, role),
            ({
                &&& r.0 matches Downstream::InitialState { connection_type, scenery, patch }
                &&& connection_type@ == (match role {
                    Role::Controller => "controller"@,
                    Role::Observer => "observer"@,
                })
                &&& patch@ == old(self)@.state
                &&& scenery.len() == old(self).spec_objects().len()
                &&& forall|i: int|
                    0 <= i < scenery.len() ==> (#[trigger] scenery[i]).id@ == old(
                        self,
                    ).spec_objects()[i].0@ && scenery[i].state == old(self).spec_objects()[i].1
            }),
            match role {
                Role::Controller => r.1 matches Some(Downstream::ControllerConnect { controller_id })
                    && controller_id@ == id@,
                Role::Observer => r.1 is None,
            },
    {
        let announce = match role {
            Role::Controller => {
                let ghost before = self.controllers@;
                if self.position(id).is_none() {
                    self.controllers.push(id.clone());
                    assert forall|k: Seq<char>| holds(self.controllers@, k) == (holds(before, k)
                        || k == id@) by {
                        if holds(before, k) {
                            let i = choose|i: int| 0 <= i < before.len() && before[i]@ == k;
                            assert(self.controllers[i]@ == k);
                        }
                        if k == id@ {
                            assert(self.controllers[before.len() as int]@ == k);
                        }
                    }
                }
                assert(self@.controllers =~= old(self)@.controllers.insert(id@));
                Some(Downstream::ControllerConnect { controller_id: id.clone() })
            },
            Role::Observer => None,
        };
        let initial = Downstream::InitialState {
            connection_type: String::from_str(
                match role {
                    Role::Controller => "controller",
                    Role::Observer => "observer",
                },
            ),
            scenery: self.scenery(),
            patch: self.state.clone(),
        };
        (initial, announce)
    }

    /// The client `id` has gone. Hands back what every client is told where
    /// it was a controller.
    pub fn disconnect(&mut self, id: &String, role: Role) -> (r: Option<Downstream<Json>>)
        requires
            old(self).wf(),
        ensures
            final(self).wf(),
            final(self)@ == old(self)@.left(id@, role),
            match role {
                Role::Controller => r matches Some(Downstream::ControllerDisconnect { controller_id })
                    && controller_id@ == id@,
                Role::Observer => r is None,
            },
    {
        match role {
            Role::Controller => {
                let ghost before = self.controllers@;
                match self.position(id) {
                    Some(i) => {
                        self.controllers.remove(i);
                        assert forall|k: Seq<char>| holds(self.controllers@, k) == (holds(
                            before,
                            k,
                        ) && k != id@) by {
                            if holds(self.controllers@, k) {
                                let j = choose|j: int|
                                    0 <= j < self.controllers.len() && self.controllers[j]@ == k;
                                let j0 = if j < i { j } else { j + 1 };
                                assert(before[j0]@ == k);
                                if j0 < i {
                                    assert(before[j0]@ != before[i as int]@);
                                } else {
                                    assert(before[i as int]@ != before[j0]@);
                                }
                            }
                            if holds(before, k) && k != id@ {
                                let j = choose|j: int| 0 <= j < before.len() && before[j]@ == k;
                                let j1 = if j < i { j } else { j - 1 };
                                assert(self.controllers[j1]@ == k);
                            }
                        }
                        assert(self@.controllers =~= old(self)@.controllers.remove(id@));
                        assert(old(self)@.controllers.contains(id@)) by {
                            assert(before[i as int]@ == id@);
                        }
                        if self.controllers.len() == 0 {
                            self.objects.clear();
                            self.state = Json::Null;
                            assert(self@.controllers =~= Set::<Seq<char>>::empty());
                        } else {
                            assert(self@.controllers.contains(self.controllers[0]@));
                        }
                    },
                    None => {
                        assert(self@.controllers =~= old(self)@.controllers.remove(id@));
                    },
                }
                Some(Downstream::ControllerDisconnect { controller_id: id.clone() })
            },
            Role::Observer => None,
        }
    }

    /// Merges `state` into the shared state.
    pub fn merge_state(&mut self, state: Json)
        requires
            old(self).wf(),
        ensures
            final(self).wf(),
            final(self)@ == (SessionView {
                state: merged(old(self)@.state, state@),
                ..old(self)@
            }),
    {
        let mut current = Json::Null;
        std::mem::swap(&mut current, &mut self.state);
        self.state = merge(current, state);
    }

    /// A message arrives from a client; `controller` is its identifier
    /// where it is a controller. A heartbeat is acknowledged; a close closes;
    /// a controller's updates change the state and are passed on to
    /// everybody with its identifier; an observer's are refused.
    pub fn handle(&mut self, controller: Option<&String>, msg: Upstream<Json>) -> (r: Outcome)
        requires
            old(self).wf(),
        ensures
            final(self).wf(),
            final(self)@ == old(self)@.handled(controller is Some, msg),
            match msg {
                Upstream::Heartbeat => r.reply matches Some(Downstream::HeartbeatAck)
                    && r.broadcast is None && !r.close,
                Upstream::HeartbeatAck => r.reply is None && r.broadcast is None && !r.close,
                Upstream::Close => r.reply is None && r.broadcast is None && r.close,
                Upstream::StateUpdate { object_id, state } => match controller {
                    Some(id) => {
                        &&& r.reply is None
                        &&& !r.close
                        &&& r.broadcast matches Some(
                            Downstream::StateUpdate { object_id: o, state: s, controller_id: c },
                        )
                        &&& o == object_id
                        &&& s == state
                        &&& c@ == id@
                    },
                    None => {
                        &&& r.broadcast is None
                        &&& !r.close
                        &&& r.reply matches Some(m)
                        &&& is_error(m, "invalid message"@)
                    },
                },
                Upstream::SharedStateUpdate { patch } => match controller {
                    Some(id) => {
                        &&& r.reply is None
                        &&& !r.close
                        &&& r.broadcast matches Some(
                            Downstream::SharedStateUpdate { patch: p, controller_id: c },
                        )
                        &&& p == patch
                        &&& c@ == id@
                    },
                    None => {
                        &&& r.broadcast is None
                        &&& !r.close
                        &&& r.reply matches Some(m)
                        &&& is_error(m, "invalid message"@)
                    },
                },
            },
    {
        match (msg, controller) {
            (Upstream::Heartbeat, _) => Outcome {
                reply: Some(Downstream::HeartbeatAck),
                broadcast: None,
                close: false,
            },
            (Upstream::HeartbeatAck, _) => Outcome { reply: None, broadcast: None, close: false },
            (Upstream::Close, _) => Outcome { reply: None, broadcast: None, close: true },
            (Upstream::StateUpdate { object_id, state }, Some(id)) => {
                self.objects.insert(object_id.clone(), state);
                Outcome {
                    reply: None,
                    broadcast: Some(
                        Downstream::StateUpdate { object_id, state, controller_id: id.clone() },
                    ),
                    close: false,
                }
            },
            (Upstream::SharedStateUpdate { patch }, Some(id)) => {
                self.merge_state(patch.clone());
                Outcome {
                    reply: None,
                    broadcast: Some(
                        Downstream::SharedStateUpdate { patch, controller_id: id.clone() },
                    ),
                    close: false,
                }
            },
            _ => Outcome { reply: Some(refusal()), broadcast: None, close: false },
        }
    }

    /// What the state endpoint reports of the aerodrome called `airport`.
    pub fn report(&self, airport: &str) -> (r: Report)
        requires
            self.wf(),
        ensures
            r.airport@ == airport@,
            r.pilots.len() == 0,
            r.offline == (self@.controllers == Set::<Seq<char>>::empty()),
            forall|id: Seq<char>| holds(r.controllers@, id) == self@.controllers.contains(id),
            forall|i: int, j: int|
                0 <= i < j < r.controllers.len() ==> r.controllers[i]@ != r.controllers[j]@,
            r.objects.len() == self.spec_objects().len(),
            forall|i: int|
                0 <= i < r.objects.len() ==> (#[trigger] r.objects[i]).id@
                    == self.spec_objects()[i].0@ && r.objects[i].state == self.spec_objects()[i].1,
    {
        let mut controllers: Vec<String> = Vec::new();
        let mut i: usize = 0;
        while i < self.controllers.len()
            invariant
                i <= self.controllers.len(),
                controllers.len() == i,
                forall|j: int| 0 <= j < i ==> (#[trigger] controllers[j])@ == self.controllers[j]@,
            decreases self.controllers.len() - i,
        {
            controllers.push(self.controllers[i].clone());
            i += 1;
        }
        proof {
            assert forall|i: int, j: int| 0 <= i < j < controllers.len() implies controllers[i]@
                != controllers[j]@ by {
                assert(self.controllers[i]@ != self.controllers[j]@);
            }
            assert forall|id: Seq<char>| holds(controllers@, id) == self@.controllers.contains(
                id,
            ) by {
                if holds(controllers@, id) {
                    let j = choose|j: int| 0 <= j < controllers.len() && controllers[j]@ == id;
                    assert(self.controllers[j]@ == id);
                }
                if holds(self.controllers@, id) {
                    let j = choose|j: int|
                        0 <= j < self.controllers.len() && self.controllers[j]@ == id;
                    assert(controllers[j]@ == id);
                }
            }
            if self.controllers.len() > 0 {
                assert(self@.controllers.contains(self.controllers[0]@));
            } else {
                assert(self@.controllers =~= Set::<Seq<char>>::empty());
            }
        }
        Report {
            airport: String::from_str(airport),
            offline: self.controllers.len() == 0,
            controllers,
            pilots: Vec::new(),
            objects: self.scenery(),
        }
    }
}

/// What a client is told when its message is not one it may send.
pub fn refusal() -> (r: Downstream<Json>)
    ensures
        is_error(r, "invalid message"@),
{
    Downstream::Error { message: String::from_str("invalid message") }
}

/// What a client is told when its message cannot be read.
pub fn malformed() -> (r: Downstream<Json>)
    ensures
        is_error(r, "malformed message"@),
{
    Downstream::Error { message: String::from_str("malformed message") }
}

/// What a client is told when it sends a frame that is not text.
pub fn invalid_frame() -> (r: Downstream<Json>)
    ensures
        is_error(r, "invalid websocket frame"@),
{
    Downstream::Error { message: String::from_str("invalid websocket frame") }
}

} // verus!
