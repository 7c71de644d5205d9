//! Local settings of the client and the mapping from aerodromes to the
//! configuration packages that describe them.

use crate::config::{Aerodrome, Config};
use crate::text::{first_at, split_once};
use vstd::prelude::*;
use vstd::string::*;

verus! {

/// The port of the local broker unless the settings say otherwise.
pub const DEFAULT_PORT: u16 = 6866;

/// The port of the local broker unless the settings say otherwise.
pub fn default_port() -> (r: u16)
    ensures
        r == DEFAULT_PORT,
{
    DEFAULT_PORT
}

/// The session server unless the settings say otherwise.
pub fn default_server() -> (r: String)
    ensures
        r@ == "https://v2.stopbars.com/"@,
{
    String::from_str("https://v2.stopbars.com/")
}

/// The user's own settings.
#[derive(Clone, Debug)]
pub struct LocalConfig {
    pub token: Option<String>,
    pub port: u16,
    pub server: String,
}

impl Default for LocalConfig {
    /// The settings of a user who has written none: no token, port 0 and no
    /// server.
    fn default() -> (r: Self)
        ensures
            r.token is None,
            r.port == 0,
            r.server@ == Seq::<char>::empty(),
    {
        LocalConfig { token: None, port: 0, server: String::new() }
    }
}

/// A configuration package and the aerodromes it describes.
#[derive(Clone, Debug)]
pub struct ConfigSource {
    pub src: String,
    pub aerodromes: Vec<String>,
}

/// The packages that the client knows of, and the directory that relative
/// package paths start from.
#[derive(Clone, Debug)]
pub struct ConfigMapping {
    pub config: Vec<ConfigSource>,
    pub base: String,
}

impl Default for ConfigMapping {
    fn default() -> (r: Self)
        ensures
            r.config.len() == 0,
            r.base@ == Seq::<char>::empty(),
    {
        ConfigMapping { config: Vec::new(), base: String::new() }
    }
}

/// Whether `list` holds the text `icao`.
pub open spec fn lists(list: Seq<String>, icao: Seq<char>) -> bool {
    exists|i: int| 0 <= i < list.len() && (#[trigger] list[i])@ == icao
}

/// Tests `lists`.
pub fn has_text(list: &Vec<String>, icao: &String) -> (r: bool)
    ensures
        r == lists(list@, icao@),
{
    let mut i: usize = 0;
    while i < list.len()
        invariant
            i <= list.len(),
            forall|j: int| 0 <= j < i ==> (#[trigger] list[j])@ != icao@,
        decreases list.len() - i,
    {
        if list[i] == *icao {
            return true;
        }
        i += 1;
    }
    false
}

/// Whether a package address names a remote package: it holds `://`.
pub open spec fn is_remote(src: Seq<char>) -> bool {
    first_at(src, "://"@, 0) is Some
}

/// Tests `is_remote`.
pub fn remote(src: &str) -> (r: bool)
    ensures
        r == is_remote(src@),
{
    split_once(src, "://").is_some()
}

/// What is to be done to load an aerodrome.
#[derive(Clone, Copy, Debug, PartialEq, Eq, Structural)]
pub enum Lookup {
    /// No package describes the aerodrome.
    Unmapped,
    /// Package `index` describes it and has not been fetched: fetch it,
    /// from the network where `remote`, and hand it to `cache`.
    Fetch { index: usize, remote: bool },
    /// Package `index` describes it and is at hand: `take` the aerodrome.
    Ready { index: usize },
}

/// The packages with what was fetched of them.
#[derive(Debug)]
pub struct ConfigManager {
    pub sources: Vec<(ConfigSource, Option<Config>)>,
    pub base: String,
}

impl ConfigManager {
    /// The first of the first `len` packages that lists `icao`.
    pub open spec fn first_source(&self, icao: Seq<char>, from: int) -> Option<int>
        decreases self.sources.len() - from,
    {
        if from < 0 || from >= self.sources.len() {
            None
        } else if lists(self.sources[from].0.aerodromes@, icao) {
            Some(from)
        } else {
            self.first_source(icao, from + 1)
        }
    }

    /// What is to be done to load `icao`.
    pub open spec fn spec_locate(&self, icao: Seq<char>) -> Lookup {
        match self.first_source(icao, 0) {
            None => Lookup::Unmapped,
            Some(i) => if self.sources[i].1 is None {
                Lookup::Fetch { index: i as usize, remote: is_remote(self.sources[i].0.src@) }
            } else {
                Lookup::Ready { index: i as usize }
            },
        }
    }

    /// The packages of `mapping`, none of them fetched.
    pub fn new(mapping: ConfigMapping) -> (r: ConfigManager)
        ensures
            r.base == mapping.base,
            r.sources.len() == mapping.config.len(),
            forall|i: int|
                0 <= i < r.sources.len() ==> (#[trigger] r.sources[i]).0 == mapping.config[i]
                    && r.sources[i].1 is None,
    {
        let ghost all = mapping.config@;
        let mut rest = mapping.config;
        let mut rev: Vec<ConfigSource> = Vec::new();
        while rest.len() > 0
            invariant
                rest@.len() + rev@.len() == all.len(),
                forall|i: int| 0 <= i < rest@.len() ==> rest@[i] == all[i],
                forall|i: int| 0 <= i < rev@.len() ==> rev@[i] == all[all.len() - 1 - i],
            decreases rest.len(),
        {
            let s = rest.pop().unwrap();
            rev.push(s);
        }
        let mut sources: Vec<(ConfigSource, Option<Config>)> = Vec::new();
        while rev.len() > 0
            invariant
                sources@.len() + rev@.len() == all.len(),
                forall|i: int| 0 <= i < rev@.len() ==> rev@[i] == all[all.len() - 1 - i],
                forall|i: int|
                    0 <= i < sources@.len() ==> (#[trigger] sources@[i]).0 == all[i]
                        && sources@[i].1 is None,
            decreases rev.len(),
        {
            let s = rev.pop().unwrap();
            sources.push((s, None));
        }
        ConfigManager { sources, base: mapping.base }
    }

    /// Says what is to be done to load `icao`.
    pub fn locate(&self, icao: &String) -> (r: Lookup)
        ensures
            r == self.spec_locate(icao@),
            r matches Lookup::Fetch { index, .. } ==> index < self.sources.len(),
            r matches Lookup::Ready { index } ==> index < self.sources.len()
                && self.sources[index as int].1 is Some,
    {
        let mut i: usize = 0;
        while i < self.sources.len()
            invariant
                i <= self.sources.len(),
                self.first_source(icao@, 0) == self.first_source(icao@, i as int),
            decreases self.sources.len() - i,
        {
            if has_text(&self.sources[i].0.aerodromes, icao) {
                return match &self.sources[i].1 {
                    None => Lookup::Fetch { index: i, remote: remote(self.sources[i].0.src.as_str()) },
                    Some(_) => Lookup::Ready { index: i },
                };
            }
            i += 1;
        }
        Lookup::Unmapped
    }

    /// Keeps the package that was fetched for source `index`.
    pub fn cache(&mut self, index: usize, config: Config)
        requires
            index < old(self).sources.len(),
        ensures
            final(self).base == old(self).base,
            final(self).sources@ == old(self).sources@.update(
                index as int,
                (old(self).sources[index as int].0, Some(config)),
            ),
    {
        let mut entry = self.sources.remove(index);
        entry.1 = Some(config);
        self.sources.insert(index, entry);
        assert(self.sources@ =~= old(self).sources@.update(
            index as int,
            (old(self).sources[index as int].0, Some(config)),
        ));
    }

    /// The position of the first aerodrome of `config` called `icao`.
    pub fn position(config: &Config, icao: &String) -> (r: Option<usize>)
        ensures
            match r {
                Some(i) => i < config.aerodromes.len() && config.aerodromes[i as int].icao@
                    == icao@ && forall|j: int| 0 <= j < i ==> config.aerodromes[j].icao@ != icao@,
                None => forall|j: int|
                    0 <= j < config.aerodromes.len() ==> config.aerodromes[j].icao@ != icao@,
            },
    {
        let mut i: usize = 0;
        while i < config.aerodromes.len()
            invariant
                i <= config.aerodromes.len(),
                forall|j: int| 0 <= j < i ==> config.aerodromes[j].icao@ != icao@,
            decreases config.aerodromes.len() - i,
        {
            if config.aerodromes[i].icao == *icao {
                return Some(i);
            }
            i += 1;
        }
        None
    }

    /// Takes the aerodrome `icao` out of the package of source `index`: the
    /// first of that name, its place taken by the last aerodrome of the
    /// package. Nothing where the package is not at hand or lacks it.
    pub fn take(&mut self, index: usize, icao: &String) -> (r: Option<Aerodrome>)
        requires
            index < old(self).sources.len(),
        ensures
            final(self).base == old(self).base,
            final(self).sources.len() == old(self).sources.len(),
            forall|i: int|
                0 <= i < final(self).sources.len() && i != index ==> final(self).sources[i] == old(
                    self,
                ).sources[i],
            final(self).sources[index as int].0 == old(self).sources[index as int].0,
            match old(self).sources[index as int].1 {
                None => r is None && final(self).sources[index as int].1 is None,
                Some(before) => match r {
                    Some(a) => {
                        &&& final(self).sources[index as int].1 matches Some(after)
                        &&& exists|i: int|
                            {
                                &&& 0 <= i < before.aerodromes.len()
                                &&& #[trigger] before.aerodromes[i] == a
                                &&& a.icao@ == icao@
                                &&& forall|j: int| 0 <= j < i ==> before.aerodromes[j].icao@ != icao@
                                &&& after.aerodromes@ == before.aerodromes@.update(
                                    i,
                                    before.aerodromes@.last(),
                                ).drop_last()
                            }
                    },
                    None => {
                        &&& forall|j: int|
                            0 <= j < before.aerodromes.len() ==> before.aerodromes[j].icao@ != icao@
                        &&& final(self).sources[index as int].1 == Some(before)
                    },
                },
            },
    {
        let mut entry = self.sources.remove(index);
        let ghost was = entry;
        let mut taken: Option<Aerodrome> = None;
        let kept = match entry.1 {
            None => None,
            Some(mut config) => {
                match ConfigManager::position(&config, icao) {
                    Some(i) => {
                        let ghost before = config.aerodromes@;
                        let a = config.aerodromes.swap_remove(i);
                        assert(before[i as int] == a);
                        taken = Some(a);
                    },
                    None => {},
                }
                Some(config)
            },
        };
        self.sources.insert(index, (entry.0, kept));
        taken
    }
}

} // verus!
