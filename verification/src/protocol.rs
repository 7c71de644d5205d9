//! The shared state of an aerodrome as it travels between controllers: block
//! states and patches keyed by identifier, and the messages of the session
//! protocol.

use crate::strmap::StrMap;
use vstd::prelude::*;
use vstd::std_specs::convert::FromSpec;

verus! {

/// The state of a node: lit or not.
pub type NodeState = bool;

/// The state of a block, its route given by node identifiers.
#[derive(Debug, Hash)]
pub enum BlockState {
    Clear,
    Relax,
    Route((String, String)),
}

/// What a `BlockState` means, with identifiers as text.
pub enum BlockStateView {
    Clear,
    Relax,
    Route(Seq<char>, Seq<char>),
}

impl View for BlockState {
    type V = BlockStateView;

    open spec fn view(&self) -> BlockStateView {
        match *self {
            BlockState::Clear => BlockStateView::Clear,
            BlockState::Relax => BlockStateView::Relax,
            BlockState::Route((a, b)) => BlockStateView::Route(a@, b@),
        }
    }
}

impl Clone for BlockState {
    fn clone(&self) -> (r: Self)
        ensures
            r == *self,
    {
        match self {
            BlockState::Clear => BlockState::Clear,
            BlockState::Relax => BlockState::Relax,
            BlockState::Route((a, b)) => BlockState::Route((a.clone(), b.clone())),
        }
    }
}

impl PartialEq for BlockState {
    fn eq(&self, other: &Self) -> (r: bool) {
        match (self, other) {
            (BlockState::Clear, BlockState::Clear) => true,
            (BlockState::Relax, BlockState::Relax) => true,
            (BlockState::Route((a, b)), BlockState::Route((c, d))) => *a == *c && *b == *d,
            _ => false,
        }
    }
}

impl Eq for BlockState {

}

impl vstd::std_specs::cmp::PartialEqSpecImpl for BlockState {
    open spec fn obeys_eq_spec() -> bool {
        true
    }

    open spec fn eq_spec(&self, other: &Self) -> bool {
        self@ == other@
    }
}

/// A partial change of an aerodrome's shared state.
#[derive(Debug)]
pub struct Patch {
    pub profile: Option<String>,
    pub nodes: StrMap<NodeState>,
    pub blocks: StrMap<BlockState>,
}

/// What a `Patch` means: an optional profile and two finite maps.
pub struct PatchView {
    pub profile: Option<Seq<char>>,
    pub nodes: Map<Seq<char>, bool>,
    pub blocks: Map<Seq<char>, BlockStateView>,
}

impl PatchView {
    /// The patch that changes nothing.
    pub open spec fn empty() -> PatchView {
        PatchView { profile: None, nodes: Map::empty(), blocks: Map::empty() }
    }

    /// This patch followed by `later`: per key the later value wins, and the
    /// later profile wins where there is one.
    pub open spec fn merge(self, later: PatchView) -> PatchView {
        PatchView {
            profile: if later.profile is Some {
                later.profile
            } else {
                self.profile
            },
            nodes: self.nodes.union_prefer_right(later.nodes),
            blocks: self.blocks.union_prefer_right(later.blocks),
        }
    }

    /// Field-wise equality, the maps compared by their entries.
    pub open spec fn same(self, other: PatchView) -> bool {
        &&& self.profile == other.profile
        &&& self.nodes =~= other.nodes
        &&& self.blocks =~= other.blocks
    }
}

/// Merging is associative: applying `a` and then `b` is applying `a` merged
/// with `b`.
pub proof fn lemma_merge_associative(s: PatchView, a: PatchView, b: PatchView)
    ensures
        s.merge(a).merge(b) == s.merge(a.merge(b)),
{
    assert(s.merge(a).merge(b).same(s.merge(a.merge(b))));
}

/// The empty patch is neutral on both sides.
pub proof fn lemma_merge_empty(s: PatchView)
    ensures
        s.merge(PatchView::empty()) == s,
        PatchView::empty().merge(s) == s,
{
    assert(s.merge(PatchView::empty()).same(s));
    assert(PatchView::empty().merge(s).same(s));
}

/// A merge is empty only if both sides are.
pub proof fn lemma_merge_is_empty(a: PatchView, b: PatchView)
    ensures
        a.merge(b) == PatchView::empty() <==> a == PatchView::empty() && b
            == PatchView::empty(),
{
    lemma_merge_empty(PatchView::empty());
    if a.merge(b) == PatchView::empty() {
        assert(a.nodes =~= Map::empty()) by {
            assert forall|k: Seq<char>| !a.nodes.contains_key(k) by {
                if a.nodes.contains_key(k) {
                    assert(a.merge(b).nodes.contains_key(k));
                }
            }
        }
        assert(b.nodes =~= Map::empty()) by {
            assert forall|k: Seq<char>| !b.nodes.contains_key(k) by {
                if b.nodes.contains_key(k) {
                    assert(a.merge(b).nodes.contains_key(k));
                }
            }
        }
        assert(a.blocks =~= Map::empty()) by {
            assert forall|k: Seq<char>| !a.blocks.contains_key(k) by {
                if a.blocks.contains_key(k) {
                    assert(a.merge(b).blocks.contains_key(k));
                }
            }
        }
        assert(b.blocks =~= Map::empty()) by {
            assert forall|k: Seq<char>| !b.blocks.contains_key(k) by {
                if b.blocks.contains_key(k) {
                    assert(a.merge(b).blocks.contains_key(k));
                }
            }
        }
        assert(a.same(PatchView::empty()));
        assert(b.same(PatchView::empty()));
    }
}

impl View for Patch {
    type V = PatchView;

    open spec fn view(&self) -> PatchView {
        PatchView {
            profile: match self.profile {
                Some(p) => Some(p@),
                None => None,
            },
            nodes: self.nodes@,
            blocks: self.blocks@,
        }
    }
}

impl Patch {
    /// Both maps are well formed.
    pub open spec fn wf(&self) -> bool {
        self.nodes.wf() && self.blocks.wf()
    }

    /// Merges `patch` into this one; `patch` wins where both speak.
    pub fn apply_patch(&mut self, patch: Patch)
        requires
            old(self).wf(),
            patch.wf(),
        ensures
            final(self).wf(),
            final(self)@ == old(self)@.merge(patch@),
    {
        if let Some(profile) = patch.profile {
            self.profile = Some(profile);
        }
        self.nodes.extend(patch.nodes);
        self.blocks.extend(patch.blocks);
    }

    /// Whether the patch changes nothing.
    pub fn is_empty(&self) -> (r: bool)
        requires
            self.wf(),
        ensures
            r == (self@ == PatchView::empty()),
    {
        self.profile.is_none() && self.nodes.is_empty() && self.blocks.is_empty()
    }
}

impl Default for Patch {
    fn default() -> (r: Self)
        ensures
            r.wf(),
            r@ == PatchView::empty(),
    {
        Patch { profile: None, nodes: StrMap::new(), blocks: StrMap::new() }
    }
}

impl Clone for Patch {
    fn clone(&self) -> (r: Self)
        ensures
            self.wf() ==> r.wf(),
            self.wf() ==> r@ == self@,
    {
        let profile = match &self.profile {
            Some(p) => Some(p.clone()),
            None => None,
        };
        let nodes = self.nodes.clone();
        let blocks = self.blocks.clone();
        proof {
            if self.wf() {
                assert(nodes.seq().len() == self.nodes.seq().len());
                assert forall|i: int| 0 <= i < nodes.seq().len() implies nodes.seq()[i]
                    == self.nodes.seq()[i] by {
                    assert(nodes.seq()[i].0 == self.nodes.seq()[i].0);
                }
                assert(nodes.seq() =~= self.nodes.seq());
                assert forall|i: int| 0 <= i < blocks.seq().len() implies blocks.seq()[i]
                    == self.blocks.seq()[i] by {
                    assert(blocks.seq()[i].0 == self.blocks.seq()[i].0);
                }
                assert(blocks.seq() =~= self.blocks.seq());
            }
        }
        Patch { profile, nodes, blocks }
    }
}

/// The whole shared state of one aerodrome, with the changes made to it since
/// they were last taken.
#[derive(Debug)]
pub struct Aerodrome {
    profile: String,
    nodes: StrMap<NodeState>,
    blocks: StrMap<BlockState>,
    patch: Option<Patch>,
}

/// What an `Aerodrome` snapshot means.
pub struct AerodromeView {
    pub profile: Seq<char>,
    pub nodes: Map<Seq<char>, bool>,
    pub blocks: Map<Seq<char>, BlockStateView>,
    pub patch: Option<PatchView>,
}

impl AerodromeView {
    /// The changes recorded so far, or the empty patch.
    pub open spec fn recorded(self) -> PatchView {
        match self.patch {
            Some(p) => p,
            None => PatchView::empty(),
        }
    }

    /// The state after `patch` arrived from elsewhere: the patch wins per key,
    /// and nothing is recorded.
    pub open spec fn apply(self, patch: PatchView) -> AerodromeView {
        AerodromeView {
            profile: match patch.profile {
                Some(p) => p,
                None => self.profile,
            },
            nodes: self.nodes.union_prefer_right(patch.nodes),
            blocks: self.blocks.union_prefer_right(patch.blocks),
            patch: self.patch,
        }
    }

    /// Field-wise equality, the maps compared by their entries.
    pub open spec fn same(self, other: AerodromeView) -> bool {
        &&& self.profile == other.profile
        &&& self.nodes =~= other.nodes
        &&& self.blocks =~= other.blocks
        &&& self.patch == other.patch
    }
}

/// Applying `a` and then `b` to a snapshot is applying `a` merged with `b`.
pub proof fn lemma_apply_merge(s: AerodromeView, a: PatchView, b: PatchView)
    ensures
        s.apply(a).apply(b) == s.apply(a.merge(b)),
{
    assert(s.apply(a).apply(b).same(s.apply(a.merge(b))));
}

impl View for Aerodrome {
    type V = AerodromeView;

    closed spec fn view(&self) -> AerodromeView {
        AerodromeView {
            profile: self.profile@,
            nodes: self.nodes@,
            blocks: self.blocks@,
            patch: match self.patch {
                Some(p) => Some(p@),
                None => None,
            },
        }
    }
}

impl Aerodrome {
    /// The maps and the recorded patch are well formed.
    pub closed spec fn wf(&self) -> bool {
        &&& self.nodes.wf()
        &&& self.blocks.wf()
        &&& match self.patch {
            Some(p) => p.wf(),
            None => true,
        }
    }

    /// The active profile's identifier.
    pub fn profile(&self) -> (r: &String)
        ensures
            r@ == self@.profile,
    {
        &self.profile
    }

    /// The node states.
    pub fn nodes(&self) -> (r: &StrMap<NodeState>)
        requires
            self.wf(),
        ensures
            r.wf(),
            r@ == self@.nodes,
    {
        &self.nodes
    }

    /// The block states.
    pub fn blocks(&self) -> (r: &StrMap<BlockState>)
        requires
            self.wf(),
        ensures
            r.wf(),
            r@ == self@.blocks,
    {
        &self.blocks
    }

    /// A state with the given profile and nothing set.
    pub fn new(profile: String) -> (r: Self)
        ensures
            r.wf(),
            r@ == (AerodromeView {
                profile: profile@,
                nodes: Map::empty(),
                blocks: Map::empty(),
                patch: None,
            }),
    {
        Aerodrome { profile, nodes: StrMap::new(), blocks: StrMap::new(), patch: None }
    }

    /// Changes the profile and records the change.
    pub fn set_profile(&mut self, profile: String)
        requires
            old(self).wf(),
        ensures
            final(self).wf(),
            final(self)@ == (AerodromeView {
                profile: profile@,
                patch: Some(
                    PatchView { profile: Some(profile@), ..old(self)@.recorded() },
                ),
                ..old(self)@
            }),
    {
        let mut patch = match self.patch.take() {
            Some(p) => p,
            None => Patch::default(),
        };
        patch.profile = Some(profile.clone());
        self.patch = Some(patch);
        self.profile = profile;
    }

    /// Sets one node and records the change.
    pub fn set_node(&mut self, id: String, state: NodeState)
        requires
            old(self).wf(),
        ensures
            final(self).wf(),
            final(self)@ == (AerodromeView {
                nodes: old(self)@.nodes.insert(id@, state),
                patch: Some(
                    PatchView {
                        nodes: old(self)@.recorded().nodes.insert(id@, state),
                        ..old(self)@.recorded()
                    },
                ),
                ..old(self)@
            }),
    {
        let mut patch = match self.patch.take() {
            Some(p) => p,
            None => Patch::default(),
        };
        patch.nodes.insert(id.clone(), state);
        self.patch = Some(patch);
        self.nodes.insert(id, state);
    }

    /// Sets one block and records the change.
    pub fn set_block(&mut self, id: String, state: BlockState)
        requires
            old(self).wf(),
        ensures
            final(self).wf(),
            final(self)@ == (AerodromeView {
                blocks: old(self)@.blocks.insert(id@, state@),
                patch: Some(
                    PatchView {
                        blocks: old(self)@.recorded().blocks.insert(id@, state@),
                        ..old(self)@.recorded()
                    },
                ),
                ..old(self)@
            }),
    {
        let mut patch = match self.patch.take() {
            Some(p) => p,
            None => Patch::default(),
        };
        patch.blocks.insert(id.clone(), state.clone());
        self.patch = Some(patch);
        self.blocks.insert(id, state);
    }

    /// Hands out the recorded changes and forgets them.
    pub fn take_patch(&mut self) -> (r: Option<Patch>)
        requires
            old(self).wf(),
        ensures
            final(self).wf(),
            final(self)@ == (AerodromeView { patch: None, ..old(self)@ }),
            match r {
                Some(p) => p.wf() && old(self)@.patch == Some(p@),
                None => old(self)@.patch is None,
            },
    {
        self.patch.take()
    }

    /// Takes over what `patch` says. Nothing is recorded.
    pub fn apply_patch(&mut self, patch: Patch)
        requires
            old(self).wf(),
            patch.wf(),
        ensures
            final(self).wf(),
            final(self)@ == old(self)@.apply(patch@),
    {
        if let Some(profile) = patch.profile {
            self.profile = profile;
        }
        self.nodes.extend(patch.nodes);
        self.blocks.extend(patch.blocks);
    }
}

impl From<Aerodrome> for Patch {
    fn from(from: Aerodrome) -> (r: Patch) {
        Patch { profile: Some(from.profile), nodes: from.nodes, blocks: from.blocks }
    }
}

impl vstd::std_specs::convert::FromSpecImpl<Aerodrome> for Patch {
    open spec fn obeys_from_spec() -> bool {
        true
    }

    closed spec fn from_spec(from: Aerodrome) -> Patch {
        Patch { profile: Some(from.profile), nodes: from.nodes, blocks: from.blocks }
    }
}

/// The patch made from a whole state says all of it: the profile and every
/// node and block.
pub proof fn lemma_patch_from_state(from: Aerodrome)
    ensures
        Patch::from_spec(from)@ == (PatchView {
            profile: Some(from@.profile),
            nodes: from@.nodes,
            blocks: from@.blocks,
        }),
        from.wf() ==> Patch::from_spec(from).wf(),
{
}

/// A toggled scenery object.
#[derive(Clone, Debug)]
pub struct SceneryObject {
    pub id: String,
    pub state: bool,
}

/// What the state endpoint reports of an aerodrome.
#[derive(Clone, Debug)]
pub struct State {
    pub airport: String,
    pub controllers: Vec<String>,
    pub pilots: Vec<String>,
    pub offline: bool,
}

/// What a client sends to the session server.
#[derive(Clone, Debug)]
pub enum Upstream<P = Patch> {
    Heartbeat,
    HeartbeatAck,
    Close,
    StateUpdate { object_id: String, state: bool },
    SharedStateUpdate { patch: P },
}

/// What the session server sends to a client.
#[derive(Clone, Debug)]
pub enum Downstream<P = Patch> {
    Heartbeat,
    HeartbeatAck,
    Close,
    Error { message: String },
    ControllerConnect { controller_id: String },
    ControllerDisconnect { controller_id: String },
    InitialState { connection_type: String, scenery: Vec<SceneryObject>, patch: P },
    StateUpdate { object_id: String, state: bool, controller_id: String },
    SharedStateUpdate { patch: P, controller_id: String },
    Other,
}

} // verus!
