//! The static description of an aerodrome: nodes, edges, blocks and profiles.
//!
//! A configuration is immutable once loaded. Everything here refers to nodes,
//! edges and blocks by their index in the aerodrome's lists.

use vstd::prelude::*;
use vstd::string::*;

verus! {

/// When a controllable cell falls back to its resting state by itself.
#[derive(Clone, Copy, Debug, Hash, PartialEq, Eq, PartialOrd, Ord, Structural)]
pub enum ResetCondition {
    Never,
    TimeSecs(u32),
}

/// How a profile drives a node.
#[derive(Clone, Copy, Debug, Hash, PartialEq, Eq, PartialOrd, Ord, Structural)]
pub enum NodeCondition {
    Fixed(bool),
    Direct(ResetCondition),
    Router,
}

/// How a profile drives an edge.
#[derive(Clone, Debug)]
pub enum EdgeCondition {
    Fixed(bool),
    Direct(usize),
    Router { block: usize, routes: Vec<(usize, usize)> },
}

/// How a profile drives a block.
#[derive(Clone, Copy, Debug, Hash, PartialEq, Eq, PartialOrd, Ord, Structural)]
pub struct BlockCondition(pub ResetCondition);

/// The state of a block: open, neutral, or assigned a route between two nodes.
#[derive(Clone, Copy, Debug, Hash)]
pub enum BlockState {
    Clear,
    Relax,
    Route((usize, usize)),
}

impl PartialEq for BlockState {
    fn eq(&self, other: &Self) -> (r: bool) {
        match (*self, *other) {
            (BlockState::Clear, BlockState::Clear) => true,
            (BlockState::Relax, BlockState::Relax) => true,
            (BlockState::Route((a, b)), BlockState::Route((c, d))) => a == c && b == d,
            _ => false,
        }
    }
}

impl Eq for BlockState {

}

impl vstd::std_specs::cmp::PartialEqSpecImpl for BlockState {
    open spec fn obeys_eq_spec() -> bool {
        true
    }

    open spec fn eq_spec(&self, other: &Self) -> bool {
        *self == *other
    }
}

/// What a scenery element follows.
#[derive(Clone, Copy, Debug, Hash, PartialEq, Eq, PartialOrd, Ord, Structural)]
pub enum ElementCondition {
    Fixed(bool),
    Node(usize),
    Edge(usize),
}

/// A scenery element that mirrors part of the lighting state.
#[derive(Clone, Debug)]
pub struct Element {
    pub id: String,
    pub condition: ElementCondition,
}

/// A vertex of the lighting graph.
#[derive(Clone, Debug)]
pub struct Node {
    pub id: String,
    pub scratchpad: Option<String>,
    pub parent: Option<usize>,
}

/// An arc of the lighting graph. Its behaviour lives in the profiles.
#[derive(Clone, Copy, Debug, PartialEq, Eq, Structural)]
pub struct Edge {}

/// A region bounded by nodes that carries one state.
#[derive(Clone, Debug)]
pub struct Block {
    pub id: String,
    pub nodes: Vec<usize>,
    pub edges: Vec<usize>,
    pub non_routes: Vec<(usize, usize)>,
    pub stands: Vec<String>,
}

/// A named set of node and block values. An index that `is_wildcard` stands
/// for every index that the preset has not written before.
#[derive(Clone, Debug)]
pub struct Preset {
    pub name: String,
    pub nodes: Vec<(usize, bool)>,
    pub blocks: Vec<(usize, BlockState)>,
}

/// A behavioural mode of the aerodrome.
#[derive(Clone, Debug)]
pub struct Profile {
    pub id: String,
    pub name: String,
    pub nodes: Vec<NodeCondition>,
    pub edges: Vec<EdgeCondition>,
    pub blocks: Vec<BlockCondition>,
    pub presets: Vec<Preset>,
}

/// An aerodrome's configuration.
#[derive(Clone, Debug)]
pub struct Aerodrome {
    pub icao: String,
    pub elements: Vec<Element>,
    pub nodes: Vec<Node>,
    pub edges: Vec<Edge>,
    pub blocks: Vec<Block>,
    pub profiles: Vec<Profile>,
}

/// A configuration package: a set of aerodromes with a name and a version.
#[derive(Clone, Debug)]
pub struct Config {
    pub name: Option<String>,
    pub version: Option<String>,
    pub aerodromes: Vec<Aerodrome>,
}

/// A styled outline.
#[derive(Clone, Debug)]
pub struct Path<T> {
    pub points: Vec<T>,
    pub style: usize,
}

/// A clickable outline.
#[derive(Clone, Debug)]
pub struct Target<T> {
    pub points: Vec<T>,
}

/// What is drawn for a node.
#[derive(Clone, Debug)]
pub struct NodeDisplay<T> {
    pub off: Vec<Path<T>>,
    pub on: Vec<Path<T>>,
    pub selected: Vec<Path<T>>,
    pub target: Target<T>,
}

/// What is drawn for an edge.
#[derive(Clone, Debug)]
pub struct EdgeDisplay<T> {
    pub off: Vec<Path<T>>,
    pub on: Vec<Path<T>>,
}

/// What is drawn for a block.
#[derive(Clone, Debug)]
pub struct BlockDisplay<T> {
    pub target: Target<T>,
}

/// A colour with alpha.
#[derive(Clone, Copy, Debug, PartialEq, Eq, Structural)]
pub struct Color {
    pub r: u8,
    pub g: u8,
    pub b: u8,
    pub a: u8,
}

/// How an outline is filled.
#[derive(Clone, Copy, Debug, PartialEq, Eq, Structural)]
pub enum FillStyle {
    Hollow,
    Solid,
    HatchHorizontal,
    HatchVertical,
    HatchForwardDiagonal,
    HatchBackwardDiagonal,
    HatchCross,
    HatchDiagonalCross,
}

/// Whether a preset index stands for "every index not written before": its
/// low 32 bits are all ones.
pub open spec fn is_wildcard(index: usize) -> bool {
    (index as int) % 0x1_0000_0000 == 0xFFFF_FFFF
}

/// Tests `is_wildcard`.
pub fn wildcard(index: usize) -> (r: bool)
    ensures
        r == is_wildcard(index),
{
    (index as u64) % 0x1_0000_0000 == 0xFFFF_FFFF
}

/// The index `b`, once for each occurrence of `n` among the first `len`
/// entries of `nodes`.
pub open spec fn borders_in(nodes: Seq<usize>, len: int, b: int, n: usize) -> Seq<int>
    decreases len,
{
    if len <= 0 {
        Seq::empty()
    } else if nodes[len - 1] == n {
        borders_in(nodes, len - 1, b, n).push(b)
    } else {
        borders_in(nodes, len - 1, b, n)
    }
}

/// The blocks among the first `b` that node `n` borders, in order, once for
/// each time the block lists the node.
pub open spec fn borders_upto(blocks: Seq<Block>, b: int, n: usize) -> Seq<int>
    decreases b,
{
    if b <= 0 {
        Seq::empty()
    } else {
        borders_upto(blocks, b - 1, n) + borders_in(
            blocks[b - 1].nodes@,
            blocks[b - 1].nodes.len() as int,
            b - 1,
            n,
        )
    }
}

/// Whether the unordered pair `{a, b}` is listed in `pairs`.
pub open spec fn lists_pair(pairs: Seq<(usize, usize)>, a: usize, b: usize) -> bool {
    pairs.contains((a, b)) || pairs.contains((b, a))
}

/// Tests `lists_pair`.
pub fn has_pair(pairs: &Vec<(usize, usize)>, a: usize, b: usize) -> (r: bool)
    ensures
        r == lists_pair(pairs@, a, b),
{
    let mut i: usize = 0;
    while i < pairs.len()
        invariant
            i <= pairs.len(),
            forall|j: int| 0 <= j < i ==> pairs@[j] != (a, b) && pairs@[j] != (b, a),
        decreases pairs.len() - i,
    {
        let p = pairs[i];
        if (p.0 == a && p.1 == b) || (p.0 == b && p.1 == a) {
            assert(pairs@[i as int] == (a, b) || pairs@[i as int] == (b, a));
            return true;
        }
        i += 1;
    }
    false
}

/// Tests whether `x` occurs in `items`.
pub fn has_index(items: &Vec<usize>, x: usize) -> (r: bool)
    ensures
        r == items@.contains(x),
{
    let mut i: usize = 0;
    while i < items.len()
        invariant
            i <= items.len(),
            forall|j: int| 0 <= j < i ==> items@[j] != x,
        decreases items.len() - i,
    {
        if items[i] == x {
            return true;
        }
        i += 1;
    }
    false
}

impl Aerodrome {
    /// A block state names only nodes that exist.
    pub open spec fn state_ok(&self, state: BlockState) -> bool {
        match state {
            BlockState::Route((a, b)) => a < self.nodes.len() && b < self.nodes.len(),
            _ => true,
        }
    }

    /// An edge condition names only nodes and blocks that exist.
    pub open spec fn edge_condition_ok(&self, c: EdgeCondition) -> bool {
        match c {
            EdgeCondition::Fixed(_) => true,
            EdgeCondition::Direct(n) => n < self.nodes.len(),
            EdgeCondition::Router { block, routes } => block < self.blocks.len(),
        }
    }

    /// A preset names only nodes and blocks that exist, or the wildcard.
    pub open spec fn preset_ok(&self, preset: Preset) -> bool {
        &&& forall|i: int|
            0 <= i < preset.nodes.len() ==> is_wildcard(#[trigger] preset.nodes[i].0)
                || preset.nodes[i].0 < self.nodes.len()
        &&& forall|i: int|
            0 <= i < preset.blocks.len() ==> {
                &&& is_wildcard(#[trigger] preset.blocks[i].0) || preset.blocks[i].0
                    < self.blocks.len()
                &&& self.state_ok(preset.blocks[i].1)
            }
    }

    /// A profile has one condition for each node, edge and block, and all it
    /// names exists.
    pub open spec fn profile_ok(&self, profile: Profile) -> bool {
        &&& profile.nodes.len() == self.nodes.len()
        &&& profile.edges.len() == self.edges.len()
        &&& profile.blocks.len() == self.blocks.len()
        &&& forall|e: int|
            0 <= e < profile.edges.len() ==> self.edge_condition_ok(#[trigger] profile.edges[e])
        &&& forall|k: int|
            0 <= k < profile.presets.len() ==> self.preset_ok(#[trigger] profile.presets[k])
    }

    /// No two nodes share an identifier, nor do two blocks.
    pub open spec fn ids_distinct(&self) -> bool {
        &&& forall|i: int, j: int|
            0 <= i < j < self.nodes.len() ==> self.nodes[i].id@ != self.nodes[j].id@
        &&& forall|i: int, j: int|
            0 <= i < j < self.blocks.len() ==> self.blocks[i].id@ != self.blocks[j].id@
    }

    /// A node's parent comes before it.
    pub open spec fn parents_prior(&self) -> bool {
        forall|i: int|
            0 <= i < self.nodes.len() ==> match (#[trigger] self.nodes[i]).parent {
                Some(p) => p < i,
                None => true,
            }
    }

    /// Blocks are bounded by nodes that exist.
    pub open spec fn blocks_in_range(&self) -> bool {
        forall|b: int, k: int|
            0 <= b < self.blocks.len() && 0 <= k < self.blocks[b].nodes.len() ==> (
            #[trigger] self.blocks[b].nodes[k]) < self.nodes.len()
    }

    /// The blocks that node `n` borders, in order.
    pub open spec fn borders(&self, n: usize) -> Seq<int> {
        borders_upto(self.blocks@, self.blocks.len() as int, n)
    }

    /// Everything but the limit on borders.
    pub open spec fn wf_static(&self) -> bool {
        &&& self.profiles.len() > 0
        &&& self.ids_distinct()
        &&& self.parents_prior()
        &&& self.blocks_in_range()
        &&& forall|p: int| 0 <= p < self.profiles.len() ==> self.profile_ok(#[trigger] self.profiles[p])
    }

    /// The configuration is consistent: it has a profile, identifiers are
    /// unique, parents come first, every index it names exists, and no node
    /// borders more than two blocks.
    pub open spec fn wf(&self) -> bool {
        &&& self.wf_static()
        &&& forall|n: usize| n < self.nodes.len() ==> (#[trigger] self.borders(n)).len() <= 2
    }

    fn check_ids(&self) -> (ok: bool)
        ensures
            ok == self.ids_distinct(),
    {
        let mut j: usize = 0;
        while j < self.nodes.len()
            invariant
                j <= self.nodes.len(),
                forall|a: int, b: int| 0 <= a < b < j ==> self.nodes[a].id@ != self.nodes[b].id@,
            decreases self.nodes.len() - j,
        {
            let mut i: usize = 0;
            while i < j
                invariant
                    i <= j < self.nodes.len(),
                    forall|a: int| 0 <= a < i ==> self.nodes[a].id@ != self.nodes[j as int].id@,
                decreases j - i,
            {
                if self.nodes[i].id == self.nodes[j].id {
                    return false;
                }
                i += 1;
            }
            j += 1;
        }
        let mut j: usize = 0;
        while j < self.blocks.len()
            invariant
                j <= self.blocks.len(),
                forall|a: int, b: int|
                    0 <= a < b < self.nodes.len() ==> self.nodes[a].id@ != self.nodes[b].id@,
                forall|a: int, b: int| 0 <= a < b < j ==> self.blocks[a].id@ != self.blocks[b].id@,
            decreases self.blocks.len() - j,
        {
            let mut i: usize = 0;
            while i < j
                invariant
                    i <= j < self.blocks.len(),
                    forall|a: int| 0 <= a < i ==> self.blocks[a].id@ != self.blocks[j as int].id@,
                decreases j - i,
            {
                if self.blocks[i].id == self.blocks[j].id {
                    return false;
                }
                i += 1;
            }
            j += 1;
        }
        true
    }

    fn check_parents(&self) -> (ok: bool)
        ensures
            ok == self.parents_prior(),
    {
        let mut i: usize = 0;
        while i < self.nodes.len()
            invariant
                i <= self.nodes.len(),
                forall|a: int|
                    0 <= a < i ==> match (#[trigger] self.nodes[a]).parent {
                        Some(p) => p < a,
                        None => true,
                    },
            decreases self.nodes.len() - i,
        {
            match self.nodes[i].parent {
                Some(p) => {
                    if p >= i {
                        return false;
                    }
                },
                None => {},
            }
            i += 1;
        }
        true
    }

    fn check_blocks(&self) -> (ok: bool)
        ensures
            ok == self.blocks_in_range(),
    {
        let mut b: usize = 0;
        while b < self.blocks.len()
            invariant
                b <= self.blocks.len(),
                forall|x: int, k: int|
                    0 <= x < b && 0 <= k < self.blocks[x].nodes.len() ==> (
                    #[trigger] self.blocks[x].nodes[k]) < self.nodes.len(),
            decreases self.blocks.len() - b,
        {
            let block = &self.blocks[b];
            let mut k: usize = 0;
            while k < block.nodes.len()
                invariant
                    k <= block.nodes.len(),
                    b < self.blocks.len(),
                    *block == self.blocks[b as int],
                    forall|j: int| 0 <= j < k ==> (#[trigger] block.nodes[j]) < self.nodes.len(),
                decreases block.nodes.len() - k,
            {
                if block.nodes[k] >= self.nodes.len() {
                    return false;
                }
                k += 1;
            }
            b += 1;
        }
        true
    }

    /// Tests `state_ok`.
    pub fn check_state(&self, state: BlockState) -> (ok: bool)
        ensures
            ok == self.state_ok(state),
    {
        match state {
            BlockState::Route((a, b)) => a < self.nodes.len() && b < self.nodes.len(),
            _ => true,
        }
    }

    fn check_preset(&self, preset: &Preset) -> (ok: bool)
        ensures
            ok == self.preset_ok(*preset),
    {
        let mut i: usize = 0;
        while i < preset.nodes.len()
            invariant
                i <= preset.nodes.len(),
                forall|j: int|
                    0 <= j < i ==> is_wildcard(#[trigger] preset.nodes[j].0) || preset.nodes[j].0
                        < self.nodes.len(),
            decreases preset.nodes.len() - i,
        {
            let index = preset.nodes[i].0;
            if !wildcard(index) && index >= self.nodes.len() {
                return false;
            }
            i += 1;
        }
        let mut i: usize = 0;
        while i < preset.blocks.len()
            invariant
                i <= preset.blocks.len(),
                forall|j: int|
                    0 <= j < preset.nodes.len() ==> is_wildcard(#[trigger] preset.nodes[j].0)
                        || preset.nodes[j].0 < self.nodes.len(),
                forall|j: int|
                    0 <= j < i ==> {
                        &&& is_wildcard(#[trigger] preset.blocks[j].0) || preset.blocks[j].0
                            < self.blocks.len()
                        &&& self.state_ok(preset.blocks[j].1)
                    },
            decreases preset.blocks.len() - i,
        {
            let index = preset.blocks[i].0;
            if !wildcard(index) && index >= self.blocks.len() {
                return false;
            }
            if !self.check_state(preset.blocks[i].1) {
                return false;
            }
            i += 1;
        }
        true
    }

    fn check_profile(&self, profile: &Profile) -> (ok: bool)
        ensures
            ok == self.profile_ok(*profile),
    {
        if profile.nodes.len() != self.nodes.len() || profile.edges.len() != self.edges.len()
            || profile.blocks.len() != self.blocks.len() {
            return false;
        }
        let mut e: usize = 0;
        while e < profile.edges.len()
            invariant
                e <= profile.edges.len(),
                forall|j: int| 0 <= j < e ==> self.edge_condition_ok(#[trigger] profile.edges[j]),
            decreases profile.edges.len() - e,
        {
            let ok = match &profile.edges[e] {
                EdgeCondition::Fixed(_) => true,
                EdgeCondition::Direct(n) => *n < self.nodes.len(),
                EdgeCondition::Router { block, routes } => *block < self.blocks.len(),
            };
            if !ok {
                return false;
            }
            e += 1;
        }
        let mut k: usize = 0;
        while k < profile.presets.len()
            invariant
                k <= profile.presets.len(),
                forall|j: int|
                    0 <= j < profile.edges.len() ==> self.edge_condition_ok(
                        #[trigger] profile.edges[j],
                    ),
                forall|j: int| 0 <= j < k ==> self.preset_ok(#[trigger] profile.presets[j]),
            decreases profile.presets.len() - k,
        {
            if !self.check_preset(&profile.presets[k]) {
                return false;
            }
            k += 1;
        }
        true
    }

    /// Tests everything that `wf` asks but the limit on borders.
    pub fn check(&self) -> (ok: bool)
        ensures
            ok == self.wf_static(),
    {
        if self.profiles.len() == 0 {
            return false;
        }
        if !self.check_ids() || !self.check_parents() || !self.check_blocks() {
            return false;
        }
        let mut p: usize = 0;
        while p < self.profiles.len()
            invariant
                p <= self.profiles.len(),
                forall|j: int| 0 <= j < p ==> self.profile_ok(#[trigger] self.profiles[j]),
            decreases self.profiles.len() - p,
        {
            if !self.check_profile(&self.profiles[p]) {
                return false;
            }
            p += 1;
        }
        true
    }

    /// The index of the node called `id`.
    pub fn node_index(&self, id: &String) -> (r: Option<usize>)
        ensures
            match r {
                Some(i) => i < self.nodes.len() && self.nodes[i as int].id@ == id@,
                None => forall|i: int| 0 <= i < self.nodes.len() ==> self.nodes[i].id@ != id@,
            },
    {
        let mut i: usize = 0;
        while i < self.nodes.len()
            invariant
                i <= self.nodes.len(),
                forall|j: int| 0 <= j < i ==> self.nodes[j].id@ != id@,
            decreases self.nodes.len() - i,
        {
            if self.nodes[i].id == *id {
                return Some(i);
            }
            i += 1;
        }
        None
    }

    /// The index of the block called `id`.
    pub fn block_index(&self, id: &String) -> (r: Option<usize>)
        ensures
            match r {
                Some(i) => i < self.blocks.len() && self.blocks[i as int].id@ == id@,
                None => forall|i: int| 0 <= i < self.blocks.len() ==> self.blocks[i].id@ != id@,
            },
    {
        let mut i: usize = 0;
        while i < self.blocks.len()
            invariant
                i <= self.blocks.len(),
                forall|j: int| 0 <= j < i ==> self.blocks[j].id@ != id@,
            decreases self.blocks.len() - i,
        {
            if self.blocks[i].id == *id {
                return Some(i);
            }
            i += 1;
        }
        None
    }

    /// The index of the first profile called `id`.
    pub fn profile_index(&self, id: &String) -> (r: Option<usize>)
        ensures
            match r {
                Some(i) => i < self.profiles.len() && self.profiles[i as int].id@ == id@
                    && forall|j: int| 0 <= j < i ==> self.profiles[j].id@ != id@,
                None => forall|i: int| 0 <= i < self.profiles.len() ==> self.profiles[i].id@ != id@,
            },
    {
        let mut i: usize = 0;
        while i < self.profiles.len()
            invariant
                i <= self.profiles.len(),
                forall|j: int| 0 <= j < i ==> self.profiles[j].id@ != id@,
            decreases self.profiles.len() - i,
        {
            if self.profiles[i].id == *id {
                return Some(i);
            }
            i += 1;
        }
        None
    }
}

/// The largest payload that a configuration package may carry: 16 MiB.
pub const PACKAGE_LIMIT: usize = 0x100_0000;

/// Why a configuration package is refused.
#[derive(Clone, Copy, Debug, PartialEq, Eq, Structural)]
pub enum PackageError {
    /// The bytes end before the header does.
    Truncated,
    /// The bytes do not start with the magic number.
    Invalid,
    /// The version is not one that is understood.
    Unsupported,
    /// The payload is above `PACKAGE_LIMIT`.
    TooLarge,
}

/// The eight bytes that every configuration package starts with.
pub open spec fn magic() -> Seq<u8> {
    seq![0xffu8, 0x42u8, 0x41u8, 0x52u8, 0x53u8, 0x13u8, 0x65u8, 0x75u8]
}

/// The version of the package format, as its two big-endian bytes.
pub open spec fn version() -> Seq<u8> {
    seq![0u8, 0u8]
}

/// The package that carries `payload`: magic number, version, payload.
pub open spec fn sealed(payload: Seq<u8>) -> Seq<u8> {
    magic() + version() + payload
}

/// What a package holds, or why it is refused. The magic number is looked
/// at first, then the version, then the size of what follows.
pub open spec fn opened(bytes: Seq<u8>) -> Result<Seq<u8>, PackageError> {
    if bytes.len() < 8 {
        Err(PackageError::Truncated)
    } else if bytes.subrange(0, 8) != magic() {
        Err(PackageError::Invalid)
    } else if bytes.len() < 10 {
        Err(PackageError::Truncated)
    } else if bytes.subrange(8, 10) != version() {
        Err(PackageError::Unsupported)
    } else if bytes.len() - 10 > PACKAGE_LIMIT {
        Err(PackageError::TooLarge)
    } else {
        Ok(bytes.subrange(10, bytes.len() as int))
    }
}

fn magic_bytes() -> (r: [u8; 8])
    ensures
        r@ == magic(),
{
    let r: [u8; 8] = [0xff, 0x42, 0x41, 0x52, 0x53, 0x13, 0x65, 0x75];
    assert(r@ =~= magic());
    r
}

/// Wraps an encoded configuration into a package; a payload above
/// `PACKAGE_LIMIT` is refused.
pub fn seal_package(payload: &Vec<u8>) -> (r: Result<Vec<u8>, PackageError>)
    ensures
        match r {
            Ok(bytes) => payload.len() <= PACKAGE_LIMIT && bytes@ == sealed(payload@),
            Err(e) => e == PackageError::TooLarge && payload.len() > PACKAGE_LIMIT,
        },
{
    if payload.len() > PACKAGE_LIMIT {
        return Err(PackageError::TooLarge);
    }
    let head = magic_bytes();
    let mut bytes: Vec<u8> = Vec::new();
    let mut i: usize = 0;
    while i < 8
        invariant
            i <= 8,
            head@ == magic(),
            bytes@ == magic().take(i as int),
        decreases 8 - i,
    {
        bytes.push(head[i]);
        assert(bytes@ =~= magic().take(i as int + 1));
        i += 1;
    }
    bytes.push(0);
    bytes.push(0);
    assert(bytes@ =~= magic() + version());
    let mut i: usize = 0;
    while i < payload.len()
        invariant
            i <= payload.len(),
            bytes@ == magic() + version() + payload@.take(i as int),
        decreases payload.len() - i,
    {
        bytes.push(payload[i]);
        assert(bytes@ =~= magic() + version() + payload@.take(i as int + 1));
        i += 1;
    }
    assert(payload@.take(payload.len() as int) =~= payload@);
    Ok(bytes)
}

/// Unwraps a configuration package.
pub fn open_package(bytes: &Vec<u8>) -> (r: Result<Vec<u8>, PackageError>)
    ensures
        match r {
            Ok(payload) => opened(bytes@) == Ok::<Seq<u8>, PackageError>(payload@),
            Err(e) => opened(bytes@) == Err::<Seq<u8>, PackageError>(e),
        },
{
    if bytes.len() < 8 {
        return Err(PackageError::Truncated);
    }
    let head = magic_bytes();
    let mut i: usize = 0;
    while i < 8
        invariant
            i <= 8,
            8 <= bytes.len(),
            head@ == magic(),
            forall|j: int| 0 <= j < i ==> bytes@[j] == magic()[j],
        decreases 8 - i,
    {
        if bytes[i] != head[i] {
            assert(bytes@.subrange(0, 8)[i as int] != magic()[i as int]);
            return Err(PackageError::Invalid);
        }
        i += 1;
    }
    assert(bytes@.subrange(0, 8) =~= magic());
    if bytes.len() < 10 {
        return Err(PackageError::Truncated);
    }
    if bytes[8] != 0 || bytes[9] != 0 {
        assert(bytes@.subrange(8, 10)[0] == bytes@[8]);
        assert(bytes@.subrange(8, 10)[1] == bytes@[9]);
        return Err(PackageError::Unsupported);
    }
    assert(bytes@.subrange(8, 10) =~= version());
    if bytes.len() - 10 > PACKAGE_LIMIT {
        return Err(PackageError::TooLarge);
    }
    let mut payload: Vec<u8> = Vec::new();
    let mut i: usize = 10;
    while i < bytes.len()
        invariant
            10 <= i <= bytes.len(),
            payload@ == bytes@.subrange(10, i as int),
        decreases bytes.len() - i,
    {
        payload.push(bytes[i]);
        assert(payload@ =~= bytes@.subrange(10, i as int + 1));
        i += 1;
    }
    Ok(payload)
}

/// What was sealed is what opening gives back.
pub proof fn lemma_package_round_trip(payload: Seq<u8>)
    requires
        payload.len() <= PACKAGE_LIMIT,
    ensures
        opened(sealed(payload)) == Ok::<Seq<u8>, PackageError>(payload),
{
    let bytes = sealed(payload);
    assert(bytes.subrange(0, 8) =~= magic());
    assert(bytes.subrange(8, 10) =~= version());
    assert(bytes.subrange(10, bytes.len() as int) =~= payload);
}

impl PackageError {
    /// The words for the error.
    pub fn message(&self) -> (r: String)
        ensures
            r@ == match *self {
                PackageError::Truncated => "unexpected end of file"@,
                PackageError::Invalid => "invalid config file"@,
                PackageError::Unsupported => "unsupported config version"@,
                PackageError::TooLarge => "size limit exceeded"@,
            },
    {
        match self {
            PackageError::Truncated => String::from_str("unexpected end of file"),
            PackageError::Invalid => String::from_str("invalid config file"),
            PackageError::Unsupported => String::from_str("unsupported config version"),
            PackageError::TooLarge => String::from_str("size limit exceeded"),
        }
    }
}

} // verus!
