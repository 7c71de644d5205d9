//! What the host program holds between ticks: how it is connected, and how
//! many of its screens show each aerodrome.

use vstd::prelude::*;
use vstd::string::*;

verus! {

/// How the client is connected.
#[derive(Clone, Copy, Debug, Hash, PartialEq, Eq, PartialOrd, Ord, Structural)]
pub enum ConnectionState {
    Disconnected,
    ConnectedDirect,
    ConnectedProxy,
    ConnectedLocal,
    Poisoned,
}

/// How the client connects.
#[derive(Clone, Copy, Debug, PartialEq, Eq, Structural)]
pub enum Mode {
    /// It starts its own broker, which links to the session server.
    Direct,
    /// It uses the broker of another client on this machine.
    Proxy,
    /// It starts its own broker without a session server.
    Local,
}

/// Why connecting failed.
#[derive(Clone, Copy, Debug, PartialEq, Eq, Structural)]
pub enum ConnectError {
    /// The user's settings could not be read.
    Settings,
    /// The settings hold no token.
    Unauthenticated,
    /// The package mapping could not be read.
    Mapping,
    /// The broker could not be started or reached.
    Unreachable,
}

/// The state of a client that has connected in mode `mode`.
pub fn connected(mode: Mode) -> (r: ConnectionState)
    ensures
        r == match mode {
            Mode::Direct => ConnectionState::ConnectedDirect,
            Mode::Proxy => ConnectionState::ConnectedProxy,
            Mode::Local => ConnectionState::ConnectedLocal,
        },
{
    match mode {
        Mode::Direct => ConnectionState::ConnectedDirect,
        Mode::Proxy => ConnectionState::ConnectedProxy,
        Mode::Local => ConnectionState::ConnectedLocal,
    }
}

/// What the user is told when connecting fails.
pub fn failure_message(error: ConnectError) -> (r: String)
    ensures
        r@ == match error {
            ConnectError::Settings => "failed to load config"@,
            ConnectError::Unauthenticated => "unauthenticated"@,
            ConnectError::Mapping => "failed to load config mapping"@,
            ConnectError::Unreachable => "failed to connect"@,
        },
{
    match error {
        ConnectError::Settings => String::from_str("failed to load config"),
        ConnectError::Unauthenticated => String::from_str("unauthenticated"),
        ConnectError::Mapping => String::from_str("failed to load config mapping"),
        ConnectError::Unreachable => String::from_str("failed to connect"),
    }
}

/// The state after an attempt to connect: connected in the mode of the
/// attempt, or poisoned with something to tell the user.
pub fn after_attempt(mode: Mode, outcome: Result<(), ConnectError>) -> (r: (
    ConnectionState,
    Option<String>,
))
    ensures
        match outcome {
            Ok(()) => r.0 == (match mode {
                Mode::Direct => ConnectionState::ConnectedDirect,
                Mode::Proxy => ConnectionState::ConnectedProxy,
                Mode::Local => ConnectionState::ConnectedLocal,
            }) && r.1 is None,
            Err(e) => {
                &&& r.0 == ConnectionState::Poisoned
                &&& r.1 matches Some(text)
                &&& text@ == (match e {
                    ConnectError::Settings => "failed to load config"@,
                    ConnectError::Unauthenticated => "unauthenticated"@,
                    ConnectError::Mapping => "failed to load config mapping"@,
                    ConnectError::Unreachable => "failed to connect"@,
                })
            },
        },
{
    match outcome {
        Ok(()) => (connected(mode), None),
        Err(e) => (ConnectionState::Poisoned, Some(failure_message(e))),
    }
}

/// How often `icao` occurs among the first `len` entries of `list`.
pub open spec fn uses(list: Seq<String>, icao: Seq<char>, len: int) -> nat
    decreases len,
{
    if len <= 0 {
        0
    } else {
        uses(list, icao, len - 1) + if list[len - 1]@ == icao {
            1nat
        } else {
            0nat
        }
    }
}

/// The aerodromes that the screens show, once for each screen.
#[derive(Debug)]
pub struct Interest {
    shown: Vec<String>,
}

impl Interest {
    /// On how many screens `icao` is shown.
    pub closed spec fn count(&self, icao: Seq<char>) -> nat {
        uses(self.shown@, icao, self.shown@.len() as int)
    }

    /// Nothing is shown.
    pub fn new() -> (r: Interest)
        ensures
            forall|icao: Seq<char>| r.count(icao) == 0,
    {
        Interest { shown: Vec::new() }
    }

    fn position(&self, icao: &String) -> (r: Option<usize>)
        ensures
            match r {
                Some(i) => i < self.shown.len() && self.shown[i as int]@ == icao@,
                None => self.count(icao@) == 0,
            },
    {
        let mut i: usize = 0;
        while i < self.shown.len()
            invariant
                i <= self.shown.len(),
                uses(self.shown@, icao@, i as int) == 0,
            decreases self.shown.len() - i,
        {
            if self.shown[i] == *icao {
                return Some(i);
            }
            i += 1;
        }
        None
    }

    /// A screen starts to show `icao`. Tells whether the broker is to be
    /// told: the client is connected and no screen showed the aerodrome.
    pub fn track_aerodrome(&mut self, icao: String, connected: bool) -> (send: bool)
        ensures
            send == (connected && old(self).count(icao@) == 0),
            forall|k: Seq<char>|
                final(self).count(k) == old(self).count(k) + if k == icao@ {
                    1nat
                } else {
                    0nat
                },
    {
        let send = connected && self.position(&icao).is_none();
        proof {
            lemma_uses_positive(self.shown@, icao@, self.shown@.len() as int);
        }
        let ghost before = self.shown@;
        self.shown.push(icao);
        proof {
            assert forall|k: Seq<char>|
                self.count(k) == old(self).count(k) + if k == icao@ {
                    1nat
                } else {
                    0nat
                } by {
                lemma_uses_prefix(before, self.shown@, k, before.len() as int);
            }
        }
        send
    }

    /// A screen stops to show `icao`. Tells whether the broker is to be
    /// told: the client is connected and it was the last screen that showed
    /// the aerodrome. A screen that did not show it changes nothing.
    pub fn untrack_aerodrome(&mut self, icao: &String, connected: bool) -> (send: bool)
        ensures
            send == (connected && old(self).count(icao@) == 1),
            forall|k: Seq<char>|
                final(self).count(k) == if k == icao@ && old(self).count(k) > 0 {
                    (old(self).count(k) - 1) as nat
                } else {
                    old(self).count(k)
                },
    {
        match self.position(icao) {
            Some(i) => {
                let ghost before = self.shown@;
                self.shown.remove(i);
                proof {
                    assert forall|k: Seq<char>|
                        self.count(k) + (if before[i as int]@ == k {
                            1nat
                        } else {
                            0nat
                        }) == old(self).count(k) by {
                        lemma_uses_remove(before, k, i as int, before.len() as int);
                    }
                }
                let again = self.position(icao);
                proof {
                    lemma_uses_positive(self.shown@, icao@, self.shown@.len() as int);
                    assert(before[i as int]@ == icao@);
                    match again {
                        Some(j) => {
                            assert(self.shown@[j as int]@ == icao@);
                        },
                        None => {},
                    }
                }
                connected && again.is_none()
            },
            None => false,
        }
    }
}

/// An entry that is listed is counted.
pub proof fn lemma_uses_positive(list: Seq<String>, icao: Seq<char>, len: int)
    requires
        0 <= len <= list.len(),
    ensures
        uses(list, icao, len) > 0 <==> exists|i: int| 0 <= i < len && list[i]@ == icao,
    decreases len,
{
    if len > 0 {
        lemma_uses_positive(list, icao, len - 1);
        if uses(list, icao, len - 1) > 0 {
            let i = choose|i: int| 0 <= i < len - 1 && list[i]@ == icao;
            assert(0 <= i < len && list[i]@ == icao);
        }
        if exists|i: int| 0 <= i < len && list[i]@ == icao {
            let i = choose|i: int| 0 <= i < len && list[i]@ == icao;
            if i < len - 1 {
                assert(0 <= i < len - 1 && list[i]@ == icao);
            }
        }
    }
}

/// Two lists that agree on their first `len` entries count the same there.
pub proof fn lemma_uses_prefix(a: Seq<String>, b: Seq<String>, icao: Seq<char>, len: int)
    requires
        0 <= len <= a.len(),
        len <= b.len(),
        forall|i: int| 0 <= i < len ==> a[i] == b[i],
    ensures
        uses(a, icao, len) == uses(b, icao, len),
    decreases len,
{
    if len > 0 {
        lemma_uses_prefix(a, b, icao, len - 1);
    }
}

/// Removing an entry takes one from the count of its text and nothing from
/// the others.
pub proof fn lemma_uses_remove(list: Seq<String>, icao: Seq<char>, at: int, len: int)
    requires
        0 <= at < len <= list.len(),
    ensures
        uses(list.remove(at), icao, len - 1) + (if list[at]@ == icao {
            1nat
        } else {
            0nat
        }) == uses(list, icao, len),
    decreases len,
{
    let short = list.remove(at);
    if at == len - 1 {
        lemma_uses_prefix(short, list, icao, len - 1);
    } else {
        lemma_uses_remove(list, icao, at, len - 1);
        assert(short[len - 2] == list[len - 1]);
    }
}

} // verus!
