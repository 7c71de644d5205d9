//! The client's replica of the aerodromes it tracks.

use crate::config;
use crate::config::{
    has_index, has_pair, is_wildcard, wildcard, BlockCondition, BlockState, EdgeCondition,
    NodeCondition, ResetCondition,
};
use crate::model::{
    firsts, oriented, oriented_all, seconds, within, ActivityState, AeroView, State, Timer,
};
use crate::model::{cand_row, cand_rows};
use crate::mutation::{
    beyond, block_values, count_false, default_node, keep, lemma_cascade_frame,
    lemma_count_false_set, lemma_keep, node_values, other_than, wire_state, without,
};
use crate::inbound::{is_first_profile, lemma_profile_named};
use crate::ipc::{Downstream, Upstream, UpstreamView};
use crate::mutation::{
    lemma_keep_all, lemma_keep_in_range, lemma_keep_same, lemma_keep_twice, lemma_node_named,
    local_state,
};
use crate::protocol;
use crate::routing::{plan_route, route_plan};
use crate::protocol::{Patch, PatchView};
use crate::strmap::StrMap;
use crate::text::{opt_text, texts};
use crate::topology::{lemma_member_has_border, lemma_slots_in_range, Tables};
use vstd::prelude::*;
use vstd::string::*;

verus! {

/// One tracked aerodrome: its configuration, the replicated state of its
/// nodes and blocks, and what waits to be sent.
#[derive(Debug)]
pub struct Aerodrome {
    pub(crate) config: config::Aerodrome,
    pub(crate) state: ActivityState,
    pub(crate) profile: usize,
    pub(crate) tables: Tables,
    pub(crate) nodes: Vec<State<bool>>,
    pub(crate) blocks: Vec<State<BlockState>>,
    pub(crate) aircraft: Vec<String>,
    pub(crate) pending_patch: Patch,
    pub(crate) pending_scenery: StrMap<bool>,
    pub(crate) node_timers: Vec<Timer>,
    pub(crate) block_timers: Vec<Timer>,
}

impl View for Aerodrome {
    type V = AeroView;

    closed spec fn view(&self) -> AeroView {
        AeroView {
            config: self.config,
            activity: self.state,
            profile: self.profile,
            nodes: self.nodes@,
            blocks: self.blocks@,
            aircraft: self.aircraft@.map_values(|s: String| s@),
            pending_patch: self.pending_patch@,
            pending_scenery: self.pending_scenery@,
            node_timers: self.node_timers@,
            block_timers: self.block_timers@,
        }
    }
}

/// The first components of `pairs`.
pub fn firsts_of(pairs: &Vec<(usize, usize)>) -> (r: Vec<usize>)
    ensures
        r@ == firsts(pairs@),
{
    let mut r: Vec<usize> = Vec::new();
    let mut i: usize = 0;
    while i < pairs.len()
        invariant
            i <= pairs.len(),
            r.len() == i,
            forall|j: int| 0 <= j < i ==> r[j] == pairs[j].0,
        decreases pairs.len() - i,
    {
        r.push(pairs[i].0);
        i += 1;
    }
    assert(r@ =~= firsts(pairs@));
    r
}

/// The second components of `pairs`.
pub fn seconds_of(pairs: &Vec<(usize, usize)>) -> (r: Vec<usize>)
    ensures
        r@ == seconds(pairs@),
{
    let mut r: Vec<usize> = Vec::new();
    let mut i: usize = 0;
    while i < pairs.len()
        invariant
            i <= pairs.len(),
            r.len() == i,
            forall|j: int| 0 <= j < i ==> r[j] == pairs[j].1,
        decreases pairs.len() - i,
    {
        r.push(pairs[i].1);
        i += 1;
    }
    assert(r@ =~= seconds(pairs@));
    r
}

/// Tests whether every element of `a` occurs in `b`.
pub fn is_within(a: &Vec<usize>, b: &Vec<usize>) -> (r: bool)
    ensures
        r == within(a@, b@),
{
    let mut i: usize = 0;
    while i < a.len()
        invariant
            i <= a.len(),
            forall|j: int| 0 <= j < i ==> b@.contains(#[trigger] a@[j]),
        decreases a.len() - i,
    {
        if !has_index(b, a[i]) {
            return false;
        }
        i += 1;
    }
    true
}

/// All routes of `routes`, each turned towards `ac`.
pub fn orient_all(ac: &Vec<usize>, routes: &Vec<(usize, usize)>) -> (r: Vec<(usize, usize)>)
    ensures
        r@ == oriented_all(ac@, routes@),
{
    let mut r: Vec<(usize, usize)> = Vec::new();
    let mut i: usize = 0;
    while i < routes.len()
        invariant
            i <= routes.len(),
            r.len() == i,
            forall|j: int| 0 <= j < i ==> r[j] == oriented(ac@, routes[j]),
        decreases routes.len() - i,
    {
        let (a, b) = routes[i];
        if has_index(ac, a) {
            r.push((a, b));
        } else {
            r.push((b, a));
        }
        i += 1;
    }
    assert(r@ =~= oriented_all(ac@, routes@));
    r
}

/// Drops the timers of cell `index`.
fn drop_index(timers: &mut Vec<Timer>, index: usize)
    ensures
        final(timers)@ == without(old(timers)@, index),
{
    let mut kept: Vec<Timer> = Vec::new();
    let mut i: usize = 0;
    while i < timers.len()
        invariant
            i <= timers.len(),
            kept@ == without(timers@.take(i as int), index),
        decreases timers.len() - i,
    {
        let t = timers[i];
        assert(timers@.take(i as int + 1).drop_last() =~= timers@.take(i as int));
        if t.index != index {
            kept.push(t);
        }
        i += 1;
    }
    assert(timers@.take(timers.len() as int) =~= timers@);
    *timers = kept;
}

/// The position of the first timer that is due at `now`.
fn first_due_index(timers: &Vec<Timer>, now: u64) -> (r: Option<usize>)
    ensures
        match r {
            Some(i) => AeroView::first_due(timers@, now, 0) == Some(i as int) && i < timers.len(),
            None => AeroView::first_due(timers@, now, 0) is None,
        },
{
    let mut i: usize = 0;
    while i < timers.len()
        invariant
            i <= timers.len(),
            AeroView::first_due(timers@, now, 0) == AeroView::first_due(timers@, now, i as int),
        decreases timers.len() - i,
    {
        if timers[i].is_due(now) {
            return Some(i);
        }
        i += 1;
    }
    None
}

impl Aerodrome {
    /// The replica is consistent with its configuration.
    pub closed spec fn wf(&self) -> bool {
        &&& self@.wf()
        &&& self.tables.matches(self.config)
        &&& self.pending_patch.wf()
        &&& self.pending_scenery.wf()
    }

    /// A consistent replica has a consistent model.
    pub proof fn lemma_wf(&self)
        requires
            self.wf(),
        ensures
            self@.wf(),
    {
    }

    /// What `new` relies on before the cells exist.
    spec fn base_ok(&self) -> bool {
        &&& self.config.wf()
        &&& self.profile < self.config.profiles.len()
        &&& self.tables.matches(self.config)
        &&& self.pending_patch.wf()
        &&& self.pending_scenery.wf()
    }

    fn node_cond(&self, n: usize) -> (r: NodeCondition)
        requires
            self.base_ok(),
            n < self.config.nodes.len(),
        ensures
            r == self@.node_condition(n),
    {
        assert(self.config.profile_ok(self.config.profiles[self.profile as int]));
        self.config.profiles[self.profile].nodes[n]
    }

    /// Loads an aerodrome: nothing where the configuration is inconsistent.
    pub fn new(config: config::Aerodrome) -> (r: Option<Aerodrome>)
        ensures
            r is Some <==> config.wf(),
            r matches Some(a) ==> a.wf() && a@ == AeroView::initial(config),
    {
        if !config.check() {
            return None;
        }
        let tables = match Tables::build(&config) {
            Some(t) => t,
            None => {
                return None;
            },
        };
        let mut a = Aerodrome {
            config,
            state: ActivityState::Inactive,
            profile: 0,
            tables,
            nodes: Vec::new(),
            blocks: Vec::new(),
            aircraft: Vec::new(),
            pending_patch: Patch::default(),
            pending_scenery: StrMap::new(),
            node_timers: Vec::new(),
            block_timers: Vec::new(),
        };
        assert(a.aircraft@.map_values(|s: String| s@) =~= Seq::<Seq<char>>::empty());
        a.set_default_state(false);
        Some(a)
    }

    fn set_default_state(&mut self, patch: bool)
        requires
            old(self).base_ok(),
        ensures
            final(self).wf(),
            final(self)@ == old(self)@.default_state(patch),
    {
        let n_nodes = self.config.nodes.len();
        let n_blocks = self.config.blocks.len();
        let mut nodes: Vec<State<bool>> = Vec::new();
        let mut i: usize = 0;
        while i < n_nodes
            invariant
                self.base_ok(),
                *self == *old(self),
                n_nodes == self.config.nodes.len(),
                i <= n_nodes,
                nodes.len() == i,
                forall|j: int|
                    0 <= j < i ==> #[trigger] nodes[j] == (State {
                        current: default_node(self@.node_condition(j as usize)),
                        pending: None::<bool>,
                    }),
            decreases n_nodes - i,
        {
            let current = match self.node_cond(i) {
                NodeCondition::Fixed(state) => state,
                NodeCondition::Direct(reset) => match reset {
                    ResetCondition::Never => false,
                    ResetCondition::TimeSecs(_) => true,
                },
                NodeCondition::Router => true,
            };
            nodes.push(State { current, pending: None });
            i += 1;
        }
        let mut blocks: Vec<State<BlockState>> = Vec::new();
        let mut i: usize = 0;
        while i < n_blocks
            invariant
                i <= n_blocks,
                blocks.len() == i,
                forall|j: int|
                    0 <= j < i ==> #[trigger] blocks[j] == (State {
                        current: BlockState::Clear,
                        pending: None::<BlockState>,
                    }),
            decreases n_blocks - i,
        {
            blocks.push(State { current: BlockState::Clear, pending: None });
            i += 1;
        }
        let ghost target = old(self)@.default_state(patch);
        assert(nodes@ =~= target.nodes);
        assert(blocks@ =~= target.blocks);
        if patch {
            let mut node_patch: StrMap<bool> = StrMap::new();
            let mut i: usize = 0;
            while i < n_nodes
                invariant
                    n_nodes == self.config.nodes.len(),
                    nodes.len() == n_nodes,
                    i <= n_nodes,
                    node_patch.wf(),
                    node_patch@ == node_values(self.config, nodes@, i as int),
                decreases n_nodes - i,
            {
                node_patch.insert(self.config.nodes[i].id.clone(), *nodes[i].state());
                i += 1;
            }
            let mut block_patch: StrMap<protocol::BlockState> = StrMap::new();
            let mut i: usize = 0;
            while i < n_blocks
                invariant
                    n_blocks == self.config.blocks.len(),
                    blocks.len() == n_blocks,
                    forall|j: int|
                        0 <= j < n_blocks ==> #[trigger] blocks[j] == (State {
                            current: BlockState::Clear,
                            pending: None::<BlockState>,
                        }),
                    i <= n_blocks,
                    block_patch.wf(),
                    block_patch@ == block_values(self.config, blocks@, i as int),
                decreases n_blocks - i,
            {
                block_patch.insert(self.config.blocks[i].id.clone(), protocol::BlockState::Clear);
                i += 1;
            }
            self.pending_patch.nodes = node_patch;
            self.pending_patch.blocks = block_patch;
        }
        self.nodes = nodes;
        self.blocks = blocks;
        self.node_timers = Vec::new();
        self.block_timers = Vec::new();
        assert(self@.node_timers =~= target.node_timers);
        assert(self@.block_timers =~= target.block_timers);
    }

    /// The cell of node `node`, if there is such a node.
    pub fn node_cell(&self, node: usize) -> (r: Option<State<bool>>)
        ensures
            r == (if node < self@.nodes.len() {
                Some(self@.nodes[node as int])
            } else {
                None
            }),
    {
        if node < self.nodes.len() {
            Some(self.nodes[node])
        } else {
            None
        }
    }

    /// The cell of block `block`, if there is such a block.
    pub fn block_cell(&self, block: usize) -> (r: Option<State<BlockState>>)
        ensures
            r == (if block < self@.blocks.len() {
                Some(self@.blocks[block as int])
            } else {
                None
            }),
    {
        if block < self.blocks.len() {
            Some(self.blocks[block])
        } else {
            None
        }
    }

    /// The patch that waits to be sent.
    pub fn pending_patch(&self) -> (r: &Patch)
        requires
            self.wf(),
        ensures
            r.wf(),
            r@ == self@.pending_patch,
    {
        &self.pending_patch
    }

    /// The node timers, in the order they were set.
    pub fn node_timers(&self) -> (r: &Vec<Timer>)
        ensures
            r@ == self@.node_timers,
    {
        &self.node_timers
    }

    /// The block timers, in the order they were set.
    pub fn block_timers(&self) -> (r: &Vec<Timer>)
        ensures
            r@ == self@.block_timers,
    {
        &self.block_timers
    }

    /// What the local user does at this aerodrome.
    pub fn state(&self) -> (r: ActivityState)
        ensures
            r == self@.activity,
    {
        self.state
    }

    /// The index of the active profile.
    pub fn profile(&self) -> (r: usize)
        ensures
            r == self@.profile,
    {
        self.profile
    }

    /// The configuration.
    pub fn config(&self) -> (r: &config::Aerodrome)
        ensures
            *r == self@.config,
    {
        &self.config
    }

    /// Whether the server reports the pilot `callsign` at this aerodrome.
    pub fn is_pilot_enabled(&self, callsign: &String) -> (r: bool)
        ensures
            r == self@.aircraft.contains(callsign@),
    {
        let ghost list = self.aircraft@.map_values(|s: String| s@);
        let mut i: usize = 0;
        while i < self.aircraft.len()
            invariant
                i <= self.aircraft.len(),
                list == self.aircraft@.map_values(|s: String| s@),
                forall|j: int| 0 <= j < i ==> list[j] != callsign@,
            decreases self.aircraft.len() - i,
        {
            if self.aircraft[i] == *callsign {
                assert(list[i as int] == callsign@);
                return true;
            }
            i += 1;
        }
        false
    }

    fn block_passes(&self, b: usize, node: usize) -> (r: bool)
        requires
            self.wf(),
        ensures
            r == self@.block_passes(b as int, node),
    {
        if b < self.blocks.len() {
            match *self.blocks[b].state() {
                BlockState::Clear => true,
                BlockState::Relax => false,
                BlockState::Route((x, y)) => x != node && y != node,
            }
        } else {
            false
        }
    }

    /// Whether node `node` is lit.
    pub fn node_state(&self, node: usize) -> (r: bool)
        requires
            self.wf(),
            node < self@.nodes.len(),
        ensures
            r == self@.node_lit(node),
    {
        match self.node_cond(node) {
            NodeCondition::Fixed(state) => state,
            NodeCondition::Direct(_) => *self.nodes[node].state(),
            NodeCondition::Router => {
                let (b1, b2) = self.tables.node_blocks[node];
                self.block_passes(b1, node) || self.block_passes(b2, node)
            },
        }
    }

    fn family(&self, p: usize) -> (r: Vec<usize>)
        requires
            self.wf(),
            p < self@.nodes.len(),
        ensures
            r@ == self@.family(p),
    {
        let children = &self.tables.children[p];
        let mut r: Vec<usize> = Vec::new();
        if children.len() > 0 {
            let mut i: usize = 0;
            while i < children.len()
                invariant
                    i <= children.len(),
                    r@ == children@.take(i as int),
                decreases children.len() - i,
            {
                r.push(children[i]);
                assert(children@.take(i as int).push(children@[i as int]) =~= children@.take(
                    i as int + 1,
                ));
                i += 1;
            }
            assert(children@.take(children.len() as int) =~= children@);
        } else {
            r.push(p);
            assert(r@ =~= seq![p]);
        }
        r
    }

    /// The concrete routes that the route of block `block` may stand for.
    pub fn route_candidates(&self, block: usize) -> (r: Vec<(usize, usize)>)
        requires
            self.wf(),
            block < self@.blocks.len(),
        ensures
            r@ == self@.route_candidates(block),
    {
        let mut routes: Vec<(usize, usize)> = Vec::new();
        match *self.blocks[block].state() {
            BlockState::Route((ap, bp)) => {
                assert(self.config.state_ok(self.blocks[block as int].effective())) by {
                    let cell = self.blocks[block as int];
                }
                let ac = self.family(ap);
                let bc = self.family(bp);
                let non_routes = &self.config.blocks[block].non_routes;
                let mut i: usize = 0;
                while i < ac.len()
                    invariant
                        i <= ac.len(),
                        routes@ == cand_rows(non_routes@, ac@, bc@, i as int),
                    decreases ac.len() - i,
                {
                    let a = ac[i];
                    let ghost before = routes@;
                    let mut j: usize = 0;
                    while j < bc.len()
                        invariant
                            i < ac.len(),
                            a == ac[i as int],
                            j <= bc.len(),
                            routes@ == before + cand_row(non_routes@, a, bc@, j as int),
                        decreases bc.len() - j,
                    {
                        let b = bc[j];
                        if !has_pair(non_routes, a, b) {
                            routes.push((a, b));
                        }
                        assert(routes@ =~= before + cand_row(non_routes@, a, bc@, j as int + 1));
                        j += 1;
                    }
                    i += 1;
                }
            },
            _ => {},
        }
        routes
    }

    fn restricted(&self, block: usize, parent: usize, own: Vec<usize>) -> (r: Option<Vec<usize>>)
        requires
            self.wf(),
            block < self@.blocks.len(),
            parent < self@.nodes.len(),
        ensures
            match r {
                Some(v) => self@.restricted(block, parent, own@) == Some(v@),
                None => self@.restricted(block, parent, own@) is None,
            },
    {
        proof {
            lemma_slots_in_range(self.config, parent);
        }
        let (b1, b2) = self.tables.node_blocks[parent];
        let adjacent = if b1 != block {
            b1
        } else {
            b2
        };
        match *self.blocks[adjacent].state() {
            BlockState::Clear => Some(own),
            BlockState::Relax => None,
            BlockState::Route((x, y)) => {
                let points = self.route_candidates(adjacent);
                if x == parent {
                    Some(firsts_of(&points))
                } else if y == parent {
                    Some(seconds_of(&points))
                } else {
                    Some(own)
                }
            },
        }
    }

    /// Whether edge `edge` is lit.
    pub fn edge_state(&self, edge: usize) -> (r: bool)
        requires
            self.wf(),
            edge < self@.config.edges.len(),
        ensures
            r == self@.edge_lit(edge),
    {
        assert(self.config.profile_ok(self.config.profiles[self.profile as int]));
        assert(self.config.edge_condition_ok(
            self.config.profiles[self.profile as int].edges[edge as int],
        ));
        match &self.config.profiles[self.profile].edges[edge] {
            EdgeCondition::Fixed(state) => *state,
            EdgeCondition::Direct(node) => !self.node_state(*node),
            EdgeCondition::Router { block, routes } => {
                let block = *block;
                match *self.blocks[block].state() {
                    BlockState::Clear => false,
                    BlockState::Relax => true,
                    BlockState::Route((ap, bp)) => {
                        assert(self.config.state_ok(self.blocks[block as int].effective())) by {
                            let cell = self.blocks[block as int];
                        }
                        let cands = self.route_candidates(block);
                        if cands.len() == 0 {
                            return false;
                        }
                        if cands.len() == 1 {
                            let (a, b) = cands[0];
                            return has_pair(routes, a, b);
                        }
                        let ac = self.family(ap);
                        let wanted = orient_all(&ac, routes);
                        let a_ends = self.restricted(block, ap, firsts_of(&cands));
                        let b_ends = self.restricted(block, bp, seconds_of(&cands));
                        match (a_ends, b_ends) {
                            (Some(a), Some(b)) => is_within(&a, &firsts_of(&wanted)) && is_within(
                                &b,
                                &seconds_of(&wanted),
                            ),
                            _ => false,
                        }
                    },
                }
            },
        }
    }

    fn bs_conf_to_ipc(&self, state: BlockState) -> (r: protocol::BlockState)
        requires
            self.base_ok(),
            self.config.state_ok(state),
        ensures
            r@ == wire_state(self.config, state),
    {
        match state {
            BlockState::Clear => protocol::BlockState::Clear,
            BlockState::Relax => protocol::BlockState::Relax,
            BlockState::Route((a, b)) => protocol::BlockState::Route(
                (self.config.nodes[a].id.clone(), self.config.nodes[b].id.clone()),
            ),
        }
    }

    fn set_node_state(&mut self, node: usize, state: bool, now: u64)
        requires
            old(self).wf(),
            node < old(self)@.nodes.len(),
        ensures
            final(self).wf(),
            final(self)@ == old(self)@.set_node_state(node, state, now),
    {
        let cell = self.nodes[node];
        self.nodes[node] = State { pending: Some(state), ..cell };
        self.pending_patch.nodes.insert(self.config.nodes[node].id.clone(), state);
        proof {
            lemma_keep(self.node_timers@, other_than(node));
        }
        drop_index(&mut self.node_timers, node);
        if !state {
            match self.node_cond(node) {
                NodeCondition::Direct(ResetCondition::TimeSecs(secs)) => {
                    self.node_timers.push(Timer { index: node, set_at: now, delay_secs: secs });
                },
                _ => {},
            }
        }
        proof {
            let target = old(self)@.set_node_state(node, state, now);
            assert(self@.nodes =~= target.nodes);
            assert(self@.node_timers =~= target.node_timers);
        }
    }

    fn set_block_state(&mut self, block: usize, state: BlockState, now: u64)
        requires
            old(self).wf(),
            block < old(self)@.blocks.len(),
            old(self)@.config.state_ok(state),
        ensures
            final(self).wf(),
            final(self)@ == old(self)@.set_block_state(block, state, now),
    {
        let cell = self.blocks[block];
        self.blocks[block] = State { pending: Some(state), ..cell };
        let wire = self.bs_conf_to_ipc(state);
        self.pending_patch.blocks.insert(self.config.blocks[block].id.clone(), wire);
        proof {
            lemma_keep(self.block_timers@, other_than(block));
        }
        drop_index(&mut self.block_timers, block);
        assert(self.config.profile_ok(self.config.profiles[self.profile as int]));
        let cond = self.config.profiles[self.profile].blocks[block];
        match state {
            BlockState::Clear => {},
            _ => match cond {
                BlockCondition(ResetCondition::TimeSecs(secs)) => {
                    self.block_timers.push(Timer { index: block, set_at: now, delay_secs: secs });
                },
                _ => {},
            },
        }
        proof {
            let target = old(self)@.set_block_state(block, state, now);
            assert(self@.blocks =~= target.blocks);
            assert(self@.block_timers =~= target.block_timers);
        }
    }

    /// The user sets node `node` to `state` at time `now` (milliseconds).
    pub fn set_node(&mut self, node: usize, state: bool, now: u64)
        requires
            old(self).wf(),
        ensures
            final(self).wf(),
            final(self)@ == old(self)@.set_node(node, state, now),
            final(self)@.config == old(self)@.config,
    {
        if node >= self.nodes.len() {
            return ;
        }
        match self.node_cond(node) {
            NodeCondition::Direct(_) => {
                self.set_node_state(node, state, now);
            },
            _ => {},
        }
    }

    /// The user sets block `block` to `state` at time `now` (milliseconds);
    /// the state spreads over the blocks that continue it.
    pub fn set_block(&mut self, block: usize, state: BlockState, now: u64)
        requires
            old(self).wf(),
        ensures
            final(self).wf(),
            final(self)@ == old(self)@.set_block(block, state, now),
            final(self)@.config == old(self)@.config,
    {
        if block >= self.blocks.len() || !self.config.check_state(state) {
            return ;
        }
        let n_blocks = self.blocks.len();
        let mut stack: Vec<usize> = Vec::new();
        stack.push(block);
        let mut visited: Vec<bool> = Vec::new();
        let mut i: usize = 0;
        while i < n_blocks
            invariant
                i <= n_blocks,
                visited.len() == i,
                forall|j: int| 0 <= j < i ==> !visited[j],
            decreases n_blocks - i,
        {
            visited.push(false);
            i += 1;
        }
        let ghost target = old(self)@.set_block(block, state, now);
        assert(stack@ =~= seq![block]);
        assert(visited@ =~= Seq::new(n_blocks as nat, |i: int| false));
        while stack.len() > 0
            invariant
                self.wf(),
                self.config == old(self).config,
                self.profile == old(self).profile,
                self.config.state_ok(state),
                n_blocks == self.blocks.len(),
                visited.len() == n_blocks,
                forall|i: int| 0 <= i < stack.len() ==> stack[i] < n_blocks,
                self@.cascade(stack@, visited@, state, now) == target,
            decreases count_false(visited@), stack.len(),
        {
            let ghost before = stack@;
            let b = stack.pop().unwrap();
            assert(stack@ == before.drop_last());
            if visited[b] {
                continue ;
            }
            proof {
                lemma_count_false_set(visited@, b as int);
            }
            visited[b] = true;
            self.set_block_state(b, state, now);
            let ghost rest = stack@;
            let len = self.config.blocks[b].nodes.len();
            let mut k: usize = 0;
            while k < len
                invariant
                    self.wf(),
                    b < n_blocks,
                    n_blocks == self.blocks.len(),
                    len == self.config.blocks[b as int].nodes.len(),
                    k <= len,
                    stack@ == rest + beyond(self.config, self.profile, b, k as int),
                    forall|i: int| 0 <= i < stack.len() ==> stack[i] < n_blocks,
                decreases len - k,
            {
                let node = self.config.blocks[b].nodes[k];
                assert(node < self.config.nodes.len()) by {
                    assert(self.config.blocks[b as int].nodes[k as int] < self.config.nodes.len());
                }
                match self.node_cond(node) {
                    NodeCondition::Fixed(false) => {
                        proof {
                            lemma_member_has_border(self.config, b as int, k as int);
                            lemma_slots_in_range(self.config, node);
                        }
                        let (b1, b2) = self.tables.node_blocks[node];
                        stack.push(b1);
                        stack.push(b2);
                    },
                    _ => {},
                }
                assert(stack@ =~= rest + beyond(self.config, self.profile, b, k as int + 1));
                k += 1;
            }
        }
    }

    /// Makes profile `i` the active one and queues the whole default state.
    pub fn set_profile(&mut self, i: usize)
        requires
            old(self).wf(),
        ensures
            final(self).wf(),
            final(self)@ == old(self)@.set_profile(i),
            final(self)@.config == old(self)@.config,
    {
        if i >= self.config.profiles.len() {
            return ;
        }
        self.profile = i;
        self.pending_patch.profile = Some(self.config.profiles[i].id.clone());
        self.set_default_state(true);
    }

    /// Hands out the patch that waits to be sent and leaves an empty one.
    pub fn take_patch(&mut self) -> (r: Patch)
        requires
            old(self).wf(),
        ensures
            final(self).wf(),
            r.wf(),
            r@ == old(self)@.pending_patch,
            final(self)@ == (AeroView { pending_patch: PatchView::empty(), ..old(self)@ }),
    {
        let mut patch = Patch::default();
        std::mem::swap(&mut patch, &mut self.pending_patch);
        patch
    }

    /// Hands out the scenery changes that wait to be sent and leaves none.
    pub fn take_scenery(&mut self) -> (r: StrMap<bool>)
        requires
            old(self).wf(),
        ensures
            final(self).wf(),
            r.wf(),
            r@ == old(self)@.pending_scenery,
            final(self)@ == (AeroView { pending_scenery: Map::empty(), ..old(self)@ }),
    {
        let mut scenery = StrMap::new();
        std::mem::swap(&mut scenery, &mut self.pending_scenery);
        scenery
    }

    /// Lets time act at `now` (milliseconds): the timers that are due fire.
    pub fn tick(&mut self, now: u64)
        requires
            old(self).wf(),
        ensures
            final(self).wf(),
            final(self)@ == old(self)@.tick(now),
    {
        let ghost target = old(self)@.fire_nodes(now);
        let mut next = first_due_index(&self.node_timers, now);
        while next.is_some()
            invariant
                self.wf(),
                self@.fire_nodes(now) == target,
                match next {
                    Some(i) => AeroView::first_due(self@.node_timers, now, 0) == Some(i as int) && i
                        < self@.node_timers.len(),
                    None => AeroView::first_due(self@.node_timers, now, 0) is None,
                },
            decreases self@.node_timers.len(),
        {
            let i = next.unwrap();
            let ghost pre = self@;
            proof {
                assert forall|j: int| 0 <= j < pre.node_timers.remove(i as int).len() implies (
                #[trigger] pre.node_timers.remove(i as int)[j]).index < pre.nodes.len() by {
                    if j < i {
                        assert(pre.node_timers.remove(i as int)[j] == pre.node_timers[j]);
                    } else {
                        assert(pre.node_timers.remove(i as int)[j] == pre.node_timers[j + 1]);
                    }
                }
            }
            let t = self.node_timers.remove(i);
            proof {
                lemma_keep(self.node_timers@, other_than(t.index));
            }
            self.set_node(t.index, true, now);
            next = first_due_index(&self.node_timers, now);
        }
        let ghost target = self@.fire_blocks(now);
        let mut next = first_due_index(&self.block_timers, now);
        while next.is_some()
            invariant
                self.wf(),
                self@.fire_blocks(now) == target,
                match next {
                    Some(i) => AeroView::first_due(self@.block_timers, now, 0) == Some(i as int)
                        && i < self@.block_timers.len(),
                    None => AeroView::first_due(self@.block_timers, now, 0) is None,
                },
            decreases self@.block_timers.len(),
        {
            let i = next.unwrap();
            let ghost pre = self@;
            proof {
                assert forall|j: int| 0 <= j < pre.block_timers.remove(i as int).len() implies (
                #[trigger] pre.block_timers.remove(i as int)[j]).index < pre.blocks.len() by {
                    if j < i {
                        assert(pre.block_timers.remove(i as int)[j] == pre.block_timers[j]);
                    } else {
                        assert(pre.block_timers.remove(i as int)[j] == pre.block_timers[j + 1]);
                    }
                }
            }
            let t = self.block_timers.remove(i);
            proof {
                lemma_cascade_frame(
                    self@,
                    seq![t.index],
                    Seq::new(self@.blocks.len(), |i: int| false),
                    BlockState::Clear,
                    now,
                );
            }
            self.set_block(t.index, BlockState::Clear, now);
            next = first_due_index(&self.block_timers, now);
        }
    }

    /// The block changes that would route from `orgn` to `dest`.
    pub fn route_plan(&self, orgn: usize, dest: usize) -> (plan: Vec<(usize, BlockState)>)
        requires
            self.wf(),
        ensures
            plan@ == route_plan(self@.config, self@.profile, orgn, dest),
            forall|i: int| 0 <= i < plan.len() ==> self@.config.state_ok((#[trigger] plan[i]).1),
    {
        plan_route(&self.config, &self.tables, self.profile, orgn, dest)
    }

    /// The user routes from `route.0` to `route.1` at time `now`
    /// (milliseconds).
    pub fn set_route(&mut self, route: (usize, usize), now: u64)
        requires
            old(self).wf(),
        ensures
            final(self).wf(),
            final(self)@ == old(self)@.set_route(route.0, route.1, now),
            final(self)@.config == old(self)@.config,
    {
        let plan = self.route_plan(route.0, route.1);
        let mut i: usize = 0;
        while i < plan.len()
            invariant
                self.wf(),
                self.config == old(self).config,
                i <= plan.len(),
                forall|j: int| 0 <= j < plan.len() ==> self.config.state_ok((#[trigger] plan[j]).1),
                self@ == old(self)@.apply_plan(plan@, i as int, now),
            decreases plan.len() - i,
        {
            let (block, state) = plan[i];
            assert(self.config.state_ok(plan[i as int].1));
            if block < self.blocks.len() {
                self.set_block_state(block, state, now);
            }
            i += 1;
        }
    }

    /// Applies preset `i` of the active profile.
    pub fn apply_preset(&mut self, i: usize)
        requires
            old(self).wf(),
        ensures
            final(self).wf(),
            final(self)@ == old(self)@.apply_preset(i),
            final(self)@.config == old(self)@.config,
    {
        assert(self.config.profile_ok(self.config.profiles[self.profile as int]));
        if i >= self.config.profiles[self.profile].presets.len() {
            return ;
        }
        assert(self.config.preset_ok(self.config.profiles[self.profile as int].presets[i as int]));
        let ghost pre = self@;
        let ghost preset = self.config.profiles[self.profile as int].presets[i as int];
        let n_nodes = self.nodes.len();
        let n_blocks = self.blocks.len();
        let mut node_patch: StrMap<bool> = StrMap::new();
        let len = self.config.profiles[self.profile].presets[i].nodes.len();
        let mut k: usize = 0;
        while k < len
            invariant
                self.wf(),
                self@ == (AeroView { nodes: self.nodes@, ..pre }),
                pre.wf(),
                self.profile == pre.profile,
                i < self.config.profiles[self.profile as int].presets.len(),
                preset == self.config.profiles[self.profile as int].presets[i as int],
                self.config.preset_ok(preset),
                n_nodes == self.nodes.len(),
                len == preset.nodes.len(),
                k <= len,
                node_patch.wf(),
                (self.nodes@, node_patch@) == pre.preset_nodes(preset.nodes@, k as int),
            decreases len - k,
        {
            let (node, state) = self.config.profiles[self.profile].presets[i].nodes[k];
            assert(is_wildcard(preset.nodes[k as int].0) || preset.nodes[k as int].0 < n_nodes);
            if wildcard(node) {
                let ghost cells = self.nodes@;
                let ghost written = node_patch@;
                let mut j: usize = 0;
                while j < n_nodes
                    invariant
                        self.wf(),
                        self@ == (AeroView { nodes: self.nodes@, ..pre }),
                        pre.wf(),
                        n_nodes == self.nodes.len(),
                        j <= n_nodes,
                        node_patch.wf(),
                        (self.nodes@, node_patch@) == pre.fill_nodes(cells, written, state, j as int),
                    decreases n_nodes - j,
                {
                    if !node_patch.contains_key(&self.config.nodes[j].id) {
                        let cell = self.nodes[j];
                        self.nodes[j] = State { pending: Some(state), ..cell };
                        node_patch.insert(self.config.nodes[j].id.clone(), state);
                    }
                    j += 1;
                }
            } else {
                let cell = self.nodes[node];
                self.nodes[node] = State { pending: Some(state), ..cell };
                node_patch.insert(self.config.nodes[node].id.clone(), state);
            }
            k += 1;
        }
        let mut block_patch: StrMap<protocol::BlockState> = StrMap::new();
        let len = self.config.profiles[self.profile].presets[i].blocks.len();
        let ghost mid = self@;
        let mut k: usize = 0;
        while k < len
            invariant
                self.wf(),
                self@ == (AeroView { blocks: self.blocks@, ..mid }),
                mid == (AeroView { nodes: mid.nodes, ..pre }),
                pre.wf(),
                self.profile == pre.profile,
                i < self.config.profiles[self.profile as int].presets.len(),
                preset == self.config.profiles[self.profile as int].presets[i as int],
                self.config.preset_ok(preset),
                n_blocks == self.blocks.len(),
                len == preset.blocks.len(),
                k <= len,
                block_patch.wf(),
                (self.blocks@, block_patch@) == pre.preset_blocks(preset.blocks@, k as int),
            decreases len - k,
        {
            let (block, state) = self.config.profiles[self.profile].presets[i].blocks[k];
            assert((is_wildcard(preset.blocks[k as int].0) || preset.blocks[k as int].0 < n_blocks)
                && self.config.state_ok(preset.blocks[k as int].1));
            if wildcard(block) {
                let ghost cells = self.blocks@;
                let ghost written = block_patch@;
                let mut j: usize = 0;
                while j < n_blocks
                    invariant
                        self.wf(),
                        self@ == (AeroView { blocks: self.blocks@, ..mid }),
                        mid == (AeroView { nodes: mid.nodes, ..pre }),
                        pre.wf(),
                        self.config.state_ok(state),
                        n_blocks == self.blocks.len(),
                        j <= n_blocks,
                        block_patch.wf(),
                        (self.blocks@, block_patch@) == pre.fill_blocks(
                            cells,
                            written,
                            state,
                            j as int,
                        ),
                    decreases n_blocks - j,
                {
                    if !block_patch.contains_key(&self.config.blocks[j].id) {
                        let cell = self.blocks[j];
                        self.blocks[j] = State { pending: Some(state), ..cell };
                        let wire = self.bs_conf_to_ipc(state);
                        block_patch.insert(self.config.blocks[j].id.clone(), wire);
                    }
                    j += 1;
                }
            } else {
                let cell = self.blocks[block];
                self.blocks[block] = State { pending: Some(state), ..cell };
                let wire = self.bs_conf_to_ipc(state);
                block_patch.insert(self.config.blocks[block].id.clone(), wire);
            }
            k += 1;
        }
        self.pending_patch.nodes = node_patch;
        self.pending_patch.blocks = block_patch;
        self.node_timers = Vec::new();
        self.block_timers = Vec::new();
        proof {
            let target = pre.apply_preset(i);
            assert(self@.node_timers =~= target.node_timers);
            assert(self@.block_timers =~= target.block_timers);
        }
    }

    fn bs_ipc_to_conf(&self, state: &protocol::BlockState) -> (r: Option<BlockState>)
        requires
            self.wf(),
        ensures
            r == local_state(self.config, state@),
            r matches Some(s) ==> self.config.state_ok(s),
    {
        match state {
            protocol::BlockState::Clear => Some(BlockState::Clear),
            protocol::BlockState::Relax => Some(BlockState::Relax),
            protocol::BlockState::Route((a, b)) => {
                match (self.config.node_index(a), self.config.node_index(b)) {
                    (Some(x), Some(y)) => {
                        proof {
                            lemma_node_named(self.config, x as int);
                            lemma_node_named(self.config, y as int);
                        }
                        Some(BlockState::Route((x, y)))
                    },
                    _ => None,
                }
            },
        }
    }

    /// Takes over a patch that arrived from the server.
    pub fn apply_patch(&mut self, patch: Patch)
        requires
            old(self).wf(),
            patch.wf(),
        ensures
            final(self).wf(),
            final(self)@ == old(self)@.apply_patch(patch@),
    {
        match &patch.profile {
            Some(id) => match self.config.profile_index(id) {
                Some(i) => {
                    proof {
                        assert(is_first_profile(self.config, id@, i as int));
                        lemma_profile_named(self.config, id@, i as int);
                    }
                    self.profile = i;
                    self.node_timers = Vec::new();
                    self.block_timers = Vec::new();
                },
                None => {
                    assert(!exists|i: int| is_first_profile(self.config, id@, i));
                },
            },
            None => {},
        }
        let ghost first = self@;
        assert(first =~= old(self)@.apply_profile(patch@.profile)) by {
            assert(self@.node_timers =~= old(self)@.apply_profile(patch@.profile).node_timers);
            assert(self@.block_timers =~= old(self)@.apply_profile(patch@.profile).block_timers);
        }
        let ghost m = patch.nodes@;
        let n_nodes = self.nodes.len();
        let mut i: usize = 0;
        proof {
            lemma_keep_all(first.node_timers, first.nodes_kept(m, 0));
        }
        while i < n_nodes
            invariant
                self.wf(),
                patch.wf(),
                m == patch.nodes@,
                first.wf(),
                n_nodes == first.nodes.len(),
                i <= n_nodes,
                self@ == (AeroView { nodes: self.nodes@, node_timers: self.node_timers@, ..first }),
                self.nodes.len() == n_nodes,
                forall|j: int|
                    0 <= j < n_nodes ==> #[trigger] self.nodes[j] == (if j < i {
                        match first.node_update(m, j) {
                            Some(v) => State { current: v, pending: None },
                            None => first.nodes[j],
                        }
                    } else {
                        first.nodes[j]
                    }),
                self.node_timers@ == keep(first.node_timers, first.nodes_kept(m, i as int)),
            decreases n_nodes - i,
        {
            let ghost kept = first.nodes_kept(m, i as int);
            let ghost kept_next = first.nodes_kept(m, i as int + 1);
            assert(self@.wf());
            assert(self@.node_timers == self.node_timers@);
            assert(forall|q: int|
                0 <= q < self.node_timers@.len() ==> (#[trigger] self.node_timers@[q]).index
                    < n_nodes);
            match patch.nodes.get(&self.config.nodes[i].id) {
                Some(v) => {
                    let v = *v;
                    self.nodes[i] = State { current: v, pending: None };
                    proof {
                        lemma_keep_twice(first.node_timers, kept, other_than(i), kept_next);
                        lemma_keep_in_range(first.node_timers, kept_next, n_nodes as int);
                    }
                    drop_index(&mut self.node_timers, i);
                },
                None => {
                    proof {
                        lemma_keep_same(first.node_timers, kept, kept_next);
                    }
                },
            }
            i += 1;
        }
        let ghost second = self@;
        assert(second == first.apply_nodes(m)) by {
            assert(self@.nodes =~= first.apply_nodes(m).nodes);
        }
        let ghost bm = patch.blocks@;
        let n_blocks = self.blocks.len();
        let mut i: usize = 0;
        proof {
            lemma_keep_all(second.block_timers, second.blocks_kept(bm, 0));
        }
        while i < n_blocks
            invariant
                self.wf(),
                patch.wf(),
                bm == patch.blocks@,
                second.wf(),
                n_blocks == second.blocks.len(),
                i <= n_blocks,
                self@ == (AeroView {
                    blocks: self.blocks@,
                    block_timers: self.block_timers@,
                    ..second
                }),
                self.blocks.len() == n_blocks,
                forall|j: int|
                    0 <= j < n_blocks ==> #[trigger] self.blocks[j] == (if j < i {
                        match second.block_update(bm, j) {
                            Some(s) => State { current: s, pending: None },
                            None => second.blocks[j],
                        }
                    } else {
                        second.blocks[j]
                    }),
                self.block_timers@ == keep(second.block_timers, second.blocks_kept(bm, i as int)),
            decreases n_blocks - i,
        {
            let ghost kept = second.blocks_kept(bm, i as int);
            let ghost kept_next = second.blocks_kept(bm, i as int + 1);
            assert(self@.wf());
            assert(self@.block_timers == self.block_timers@);
            assert(self@.blocks == self.blocks@);
            assert(forall|q: int|
                0 <= q < self.block_timers@.len() ==> (#[trigger] self.block_timers@[q]).index
                    < n_blocks);
            assert(forall|q: int|
                0 <= q < self.blocks@.len() ==> {
                    &&& self.config.state_ok((#[trigger] self.blocks@[q]).current)
                    &&& self.blocks@[q].pending matches Some(p) ==> self.config.state_ok(p)
                });
            let update = match patch.blocks.get(&self.config.blocks[i].id) {
                Some(w) => self.bs_ipc_to_conf(w),
                None => None,
            };
            assert(update == second.block_update(bm, i as int));
            match update {
                Some(s) => {
                    self.blocks[i] = State { current: s, pending: None };
                    proof {
                        lemma_keep_twice(second.block_timers, kept, other_than(i), kept_next);
                        lemma_keep_in_range(second.block_timers, kept_next, n_blocks as int);
                    }
                    drop_index(&mut self.block_timers, i);
                },
                None => {
                    proof {
                        lemma_keep_same(second.block_timers, kept, kept_next);
                    }
                },
            }
            i += 1;
        }
        assert(self@ == second.apply_blocks(bm)) by {
            assert(self@.blocks =~= second.apply_blocks(bm).blocks);
        }
    }

    /// Records whether the local user controls the aerodrome.
    pub fn set_controlled(&mut self, control: bool)
        requires
            old(self).wf(),
        ensures
            final(self).wf(),
            final(self)@ == (AeroView {
                activity: if control {
                    ActivityState::Controlling
                } else {
                    ActivityState::Observing
                },
                ..old(self)@
            }),
    {
        self.state = if control {
            ActivityState::Controlling
        } else {
            ActivityState::Observing
        };
    }

    /// Records the pilots that the server reports.
    pub fn set_aircraft(&mut self, aircraft: Vec<String>)
        requires
            old(self).wf(),
        ensures
            final(self).wf(),
            final(self)@ == (AeroView {
                aircraft: aircraft@.map_values(|s: String| s@),
                ..old(self)@
            }),
    {
        self.aircraft = aircraft;
    }
}

/// What the user is told when the server reports an error at `icao`.
pub open spec fn notice_text(icao: Seq<char>, message: Option<Seq<char>>) -> Seq<char> {
    "server: "@ + icao + ": "@ + match message {
        Some(m) => m,
        None => "error"@,
    }
}

/// Builds `notice_text`.
pub fn notice(icao: &String, message: &Option<String>) -> (r: String)
    ensures
        r@ == notice_text(icao@, opt_text(*message)),
{
    let mut s = String::from_str("server: ");
    s.append(icao.as_str());
    s.append(": ");
    match message {
        Some(m) => {
            s.append(m.as_str());
        },
        None => {
            s.append("error");
        },
    }
    s
}

/// The aerodromes that a client tracks, as mathematics.
pub struct ClientView {
    pub aerodromes: Seq<AeroView>,
}

/// What one tick of a client gives: its new state, what the user is told,
/// and what is sent.
pub struct TickView {
    pub state: ClientView,
    pub messages: Seq<Seq<char>>,
    pub outbound: Seq<UpstreamView>,
}

impl ClientView {
    /// Every aerodrome is consistent and no two share an ICAO code.
    pub open spec fn wf(self) -> bool {
        &&& forall|i: int| 0 <= i < self.aerodromes.len() ==> (#[trigger] self.aerodromes[i]).wf()
        &&& forall|i: int, j: int|
            0 <= i < j < self.aerodromes.len() ==> self.aerodromes[i].config.icao@
                != self.aerodromes[j].config.icao@
    }

    /// Whether the aerodrome `icao` is tracked.
    pub open spec fn tracks(self, icao: Seq<char>) -> bool {
        exists|i: int|
            0 <= i < self.aerodromes.len() && (#[trigger] self.aerodromes[i]).config.icao@ == icao
    }

    /// The position of the aerodrome `icao` (meaningful when it is tracked).
    pub open spec fn index_of(self, icao: Seq<char>) -> int {
        choose|i: int|
            0 <= i < self.aerodromes.len() && (#[trigger] self.aerodromes[i]).config.icao@ == icao
    }

    /// The replica of aerodrome `icao` (meaningful when it is tracked).
    pub open spec fn at(self, icao: Seq<char>) -> AeroView {
        self.aerodromes[self.index_of(icao)]
    }

    /// The aerodrome `icao` replaced by `next`, where it is tracked.
    pub open spec fn amend(self, icao: Seq<char>, next: AeroView) -> ClientView {
        if self.tracks(icao) {
            ClientView { aerodromes: self.aerodromes.update(self.index_of(icao), next) }
        } else {
            self
        }
    }

    /// The aerodrome `icao` dropped, where it is tracked.
    pub open spec fn forget(self, icao: Seq<char>) -> ClientView {
        if self.tracks(icao) {
            ClientView { aerodromes: self.aerodromes.remove(self.index_of(icao)) }
        } else {
            self
        }
    }

    /// The state after one message from the broker: a configuration starts
    /// a replica unless the aerodrome has one or the configuration is
    /// inconsistent; control, patches and pilots update the replica they are
    /// for; an error that disconnects ends the replica.
    pub open spec fn receive(self, msg: Downstream) -> ClientView {
        match msg {
            Downstream::Config { data } => if !self.tracks(data.icao@) && data.wf() {
                ClientView { aerodromes: self.aerodromes.push(AeroView::initial(data)) }
            } else {
                self
            },
            Downstream::Control { icao, control } => self.amend(
                icao@,
                AeroView {
                    activity: if control {
                        ActivityState::Controlling
                    } else {
                        ActivityState::Observing
                    },
                    ..self.at(icao@)
                },
            ),
            Downstream::Patch { icao, patch } => self.amend(
                icao@,
                self.at(icao@).apply_patch(patch@),
            ),
            Downstream::Aircraft { icao, aircraft } => self.amend(
                icao@,
                AeroView { aircraft: texts(aircraft@), ..self.at(icao@) },
            ),
            Downstream::Error { icao, message, disconnect } => if disconnect {
                self.forget(icao@)
            } else {
                self
            },
        }
    }

    /// What the user is told on a message: the text of a server error.
    pub open spec fn told(msg: Downstream) -> Seq<Seq<char>> {
        match msg {
            Downstream::Error { icao, message, disconnect } => seq![
                notice_text(icao@, opt_text(message)),
            ],
            _ => Seq::empty(),
        }
    }

    /// What is sent on a message: the end of tracking after an error that
    /// disconnects.
    pub open spec fn answered(msg: Downstream) -> Seq<UpstreamView> {
        match msg {
            Downstream::Error { icao, message, disconnect } => if disconnect {
                seq![UpstreamView::Track { icao: icao@, track: false }]
            } else {
                Seq::empty()
            },
            _ => Seq::empty(),
        }
    }

    /// The first `len` messages of `inbound` received in order.
    pub open spec fn receive_all(self, inbound: Seq<Downstream>, len: int) -> TickView
        decreases len,
    {
        if len <= 0 {
            TickView { state: self, messages: Seq::empty(), outbound: Seq::empty() }
        } else {
            let before = self.receive_all(inbound, len - 1);
            TickView {
                state: before.state.receive(inbound[len - 1]),
                messages: before.messages + Self::told(inbound[len - 1]),
                outbound: before.outbound + Self::answered(inbound[len - 1]),
            }
        }
    }

    /// What an aerodrome sends once time has acted on it: its patch and its
    /// scenery changes, each only where there is something to say.
    pub open spec fn dues(a: AeroView) -> Seq<UpstreamView> {
        (if a.pending_patch == PatchView::empty() {
            Seq::<UpstreamView>::empty()
        } else {
            seq![UpstreamView::Patch { icao: a.config.icao@, patch: a.pending_patch }]
        }) + (if a.pending_scenery == Map::<Seq<char>, bool>::empty() {
            Seq::<UpstreamView>::empty()
        } else {
            seq![UpstreamView::Scenery { icao: a.config.icao@, scenery: a.pending_scenery }]
        })
    }

    /// Time acts on the first `len` aerodromes and what they queued is sent.
    pub open spec fn settle(self, now: u64, len: int) -> TickView
        decreases len,
    {
        if len <= 0 {
            TickView { state: self, messages: Seq::empty(), outbound: Seq::empty() }
        } else {
            let before = self.settle(now, len - 1);
            let a = before.state.aerodromes[len - 1].tick(now);
            TickView {
                state: ClientView { aerodromes: before.state.aerodromes.update(len - 1, a.flushed()) },
                messages: before.messages,
                outbound: before.outbound + Self::dues(a),
            }
        }
    }

    /// One tick: the inbound messages are received in order, then time acts
    /// on every aerodrome and what is queued is sent.
    pub open spec fn tick(self, inbound: Seq<Downstream>, now: u64) -> TickView {
        let received = self.receive_all(inbound, inbound.len() as int);
        let settled = received.state.settle(now, received.state.aerodromes.len() as int);
        TickView {
            state: settled.state,
            messages: received.messages,
            outbound: received.outbound + settled.outbound,
        }
    }
}

/// A tick never sends an empty patch.
pub proof fn lemma_settle_sends_no_empty_patch(v: ClientView, now: u64, len: int)
    ensures
        forall|i: int|
            0 <= i < v.settle(now, len).outbound.len() ==> (#[trigger] v.settle(
                now,
                len,
            ).outbound[i] matches UpstreamView::Patch { patch, .. } ==> patch
                != PatchView::empty()),
    decreases len,
{
    if len > 0 {
        lemma_settle_sends_no_empty_patch(v, now, len - 1);
        let before = v.settle(now, len - 1);
        let all = v.settle(now, len);
        assert forall|i: int| 0 <= i < all.outbound.len() implies (#[trigger] all.outbound[i] matches UpstreamView::Patch {
            patch,
            ..
        } ==> patch != PatchView::empty()) by {
            if i < before.outbound.len() {
                assert(all.outbound[i] == before.outbound[i]);
            }
        }
    }
}

/// What is received never holds a patch.
pub proof fn lemma_receive_sends_no_patch(v: ClientView, inbound: Seq<Downstream>, len: int)
    ensures
        forall|i: int|
            0 <= i < v.receive_all(inbound, len).outbound.len() ==> !(#[trigger] v.receive_all(
                inbound,
                len,
            ).outbound[i] is Patch),
    decreases len,
{
    if len > 0 {
        lemma_receive_sends_no_patch(v, inbound, len - 1);
        let before = v.receive_all(inbound, len - 1);
        let all = v.receive_all(inbound, len);
        assert forall|i: int| 0 <= i < all.outbound.len() implies !(#[trigger] all.outbound[i] is Patch) by {
            if i < before.outbound.len() {
                assert(all.outbound[i] == before.outbound[i]);
            }
        }
    }
}

/// A tick never sends an empty patch.
pub proof fn lemma_tick_sends_no_empty_patch(v: ClientView, inbound: Seq<Downstream>, now: u64)
    ensures
        forall|i: int|
            0 <= i < v.tick(inbound, now).outbound.len() ==> (#[trigger] v.tick(
                inbound,
                now,
            ).outbound[i] matches UpstreamView::Patch { patch, .. } ==> patch
                != PatchView::empty()),
{
    let received = v.receive_all(inbound, inbound.len() as int);
    let settled = received.state.settle(now, received.state.aerodromes.len() as int);
    lemma_receive_sends_no_patch(v, inbound, inbound.len() as int);
    lemma_settle_sends_no_empty_patch(received.state, now, received.state.aerodromes.len() as int);
    let all = v.tick(inbound, now);
    assert forall|i: int| 0 <= i < all.outbound.len() implies (#[trigger] all.outbound[i] matches UpstreamView::Patch {
        patch,
        ..
    } ==> patch != PatchView::empty()) by {
        if i < received.outbound.len() {
            assert(all.outbound[i] == received.outbound[i]);
        } else {
            assert(all.outbound[i] == settled.outbound[i - received.outbound.len()]);
        }
    }
}

/// Settling touches only the aerodromes it has come to.
pub proof fn lemma_settle_shape(v: ClientView, now: u64, len: int)
    requires
        0 <= len <= v.aerodromes.len(),
    ensures
        v.settle(now, len).state.aerodromes.len() == v.aerodromes.len(),
        forall|i: int|
            0 <= i < v.aerodromes.len() ==> #[trigger] v.settle(now, len).state.aerodromes[i] == (
            if i < len {
                v.aerodromes[i].tick(now).flushed()
            } else {
                v.aerodromes[i]
            }),
    decreases len,
{
    if len > 0 {
        lemma_settle_shape(v, now, len - 1);
    }
}

/// Settling aerodromes that have nothing queued and no timer due changes
/// nothing and sends nothing.
pub proof fn lemma_settle_quiet(v: ClientView, now: u64, len: int)
    requires
        0 <= len <= v.aerodromes.len(),
        forall|i: int|
            0 <= i < v.aerodromes.len() ==> (#[trigger] v.aerodromes[i]).tick(now).flushed()
                == v.aerodromes[i] && ClientView::dues(v.aerodromes[i].tick(now)).len() == 0,
    ensures
        v.settle(now, len).state == v,
        v.settle(now, len).outbound.len() == 0,
        v.settle(now, len).messages.len() == 0,
    decreases len,
{
    if len > 0 {
        lemma_settle_quiet(v, now, len - 1);
        let before = v.settle(now, len - 1);
        assert(before.state.aerodromes.update(len - 1, v.aerodromes[len - 1]) =~= v.aerodromes);
    }
}

/// A tick with nothing to receive, right after a tick at the same moment,
/// changes nothing, tells nothing and sends nothing.
pub proof fn lemma_idle_tick(v: ClientView, inbound: Seq<Downstream>, now: u64)
    ensures
        ({
            let once = v.tick(inbound, now).state;
            let twice = once.tick(Seq::empty(), now);
            twice.state == once && twice.messages.len() == 0 && twice.outbound.len() == 0
        }),
{
    let received = v.receive_all(inbound, inbound.len() as int).state;
    let once = v.tick(inbound, now).state;
    lemma_settle_shape(received, now, received.aerodromes.len() as int);
    assert forall|i: int| 0 <= i < once.aerodromes.len() implies (#[trigger] once.aerodromes[i]).tick(
        now,
    ).flushed() == once.aerodromes[i] && ClientView::dues(once.aerodromes[i].tick(now)).len()
        == 0 by {
        let a = received.aerodromes[i];
        crate::laws::lemma_tick_idempotent(a, now);
        crate::laws::lemma_flushed_tick(a.tick(now), now);
    }
    lemma_settle_quiet(once, now, once.aerodromes.len() as int);
}

/// What a tick hands back.
#[derive(Debug)]
pub struct TickOutput {
    /// What the user is to be told.
    pub messages: Vec<String>,
    /// What is to be sent to the broker, in order.
    pub outbound: Vec<Upstream>,
}

/// The views of a list of messages.
pub open spec fn upstream_views(list: Seq<Upstream>) -> Seq<UpstreamView> {
    list.map_values(|m: Upstream| m@)
}

/// The client's side of the replication: the aerodromes it tracks.
#[derive(Debug)]
pub struct Client {
    aerodromes: Vec<Aerodrome>,
}

impl View for Client {
    type V = ClientView;

    closed spec fn view(&self) -> ClientView {
        ClientView { aerodromes: self.aerodromes@.map_values(|a: Aerodrome| a@) }
    }
}

/// Every replica of `list` is consistent and no two share an ICAO code.
spec fn list_ok(list: Seq<Aerodrome>) -> bool {
    &&& forall|i: int| 0 <= i < list.len() ==> (#[trigger] list[i]).wf()
    &&& forall|i: int, j: int|
        0 <= i < j < list.len() ==> list[i].config.icao@ != list[j].config.icao@
}

impl Client {
    /// Every replica is consistent and no two share an ICAO code.
    pub closed spec fn wf(&self) -> bool {
        list_ok(self.aerodromes@)
    }

    /// A consistent client has a consistent model.
    pub proof fn lemma_wf(&self)
        requires
            self.wf(),
        ensures
            self@.wf(),
    {
        let v = self@;
        assert forall|i: int| 0 <= i < v.aerodromes.len() implies (#[trigger] v.aerodromes[i]).wf() by {
            assert(self.aerodromes[i].wf());
        }
        assert forall|i: int, j: int| 0 <= i < j < v.aerodromes.len() implies v.aerodromes[i].config.icao@
            != v.aerodromes[j].config.icao@ by {
            assert(self.aerodromes[i].config.icao@ != self.aerodromes[j].config.icao@);
        }
    }

    fn lift(&mut self, i: usize) -> (a: Aerodrome)
        requires
            old(self).wf(),
            i < old(self).aerodromes.len(),
        ensures
            a == old(self).aerodromes[i as int],
            a.wf(),
            a@ == old(self)@.aerodromes[i as int],
            final(self).aerodromes@ == old(self).aerodromes@.remove(i as int),
    {
        self.aerodromes.remove(i)
    }

    fn restore(&mut self, i: usize, a: Aerodrome, Ghost(before): Ghost<Seq<Aerodrome>>)
        requires
            list_ok(before),
            i < before.len(),
            old(self).aerodromes@ == before.remove(i as int),
            a.wf(),
            a.config.icao@ == before[i as int].config.icao@,
        ensures
            final(self).wf(),
            final(self).aerodromes@ == before.update(i as int, a),
            final(self)@.aerodromes == before.map_values(|a: Aerodrome| a@).update(i as int, a@),
    {
        self.aerodromes.insert(i, a);
        let ghost after = self.aerodromes@;
        assert(after =~= before.update(i as int, a));
        assert(self@.aerodromes =~= before.map_values(|a: Aerodrome| a@).update(i as int, a@));
        assert forall|x: int, y: int| 0 <= x < y < after.len() implies after[x].config.icao@
            != after[y].config.icao@ by {
            assert(before[x].config.icao@ != before[y].config.icao@);
        }
    }

    /// A client that tracks nothing, and the message that announces it to
    /// the broker.
    pub fn new() -> (r: (Client, Upstream))
        ensures
            r.0.wf(),
            r.0@.aerodromes.len() == 0,
            r.1@ == UpstreamView::Init,
    {
        (Client { aerodromes: Vec::new() }, Upstream::Init)
    }

    fn position(&self, icao: &String) -> (r: Option<usize>)
        requires
            self.wf(),
        ensures
            match r {
                Some(i) => self@.tracks(icao@) && self@.index_of(icao@) == i && i
                    < self.aerodromes.len(),
                None => !self@.tracks(icao@),
            },
    {
        proof {
            self.lemma_wf();
        }
        let mut i: usize = 0;
        while i < self.aerodromes.len()
            invariant
                self.wf(),
                self@.wf(),
                i <= self.aerodromes.len(),
                forall|j: int| 0 <= j < i ==> (#[trigger] self@.aerodromes[j]).config.icao@ != icao@,
            decreases self.aerodromes.len() - i,
        {
            if self.aerodromes[i].config.icao == *icao {
                proof {
                    let v = self@;
                    assert(v.aerodromes[i as int].config.icao@ == icao@);
                    assert(v.tracks(icao@));
                    let j = v.index_of(icao@);
                    assert(0 <= j < v.aerodromes.len() && v.aerodromes[j].config.icao@ == icao@);
                    if j < i {
                        assert(v.aerodromes[j].config.icao@ != v.aerodromes[i as int].config.icao@);
                    } else if i < j {
                        assert(v.aerodromes[i as int].config.icao@ != v.aerodromes[j].config.icao@);
                    }
                }
                return Some(i);
            }
            i += 1;
        }
        None
    }

    /// The replica of aerodrome `icao`, if it is tracked.
    pub fn aerodrome(&self, icao: &String) -> (r: Option<&Aerodrome>)
        requires
            self.wf(),
        ensures
            match r {
                Some(a) => self@.tracks(icao@) && a@ == self@.aerodromes[self@.index_of(icao@)]
                    && a.wf(),
                None => !self@.tracks(icao@),
            },
    {
        match self.position(icao) {
            Some(i) => Some(&self.aerodromes[i]),
            None => None,
        }
    }

    /// Starts or ends the tracking of `icao`: the end drops the replica. The
    /// message is to be sent to the broker either way.
    pub fn set_tracking(&mut self, icao: String, track: bool) -> (r: Upstream)
        requires
            old(self).wf(),
        ensures
            final(self).wf(),
            final(self)@ == (if track {
                old(self)@
            } else {
                old(self)@.forget(icao@)
            }),
            r@ == (UpstreamView::Track { icao: icao@, track }),
    {
        if !track {
            self.forget(&icao);
        }
        Upstream::Track { icao, track }
    }

    fn forget(&mut self, icao: &String)
        requires
            old(self).wf(),
        ensures
            final(self).wf(),
            final(self)@ == old(self)@.forget(icao@),
    {
        match self.position(icao) {
            Some(i) => {
                self.aerodromes.remove(i);
                assert(self@.aerodromes =~= old(self)@.aerodromes.remove(i as int));
            },
            None => {},
        }
    }

    /// Asks for or gives up control of `icao`: a message to send where the
    /// aerodrome is tracked, nothing otherwise.
    pub fn set_controlling(&self, icao: String, control: bool) -> (r: Option<Upstream>)
        requires
            self.wf(),
        ensures
            match r {
                Some(m) => self@.tracks(icao@) && m@ == (UpstreamView::Control {
                    icao: icao@,
                    control,
                }),
                None => !self@.tracks(icao@),
            },
    {
        match self.position(&icao) {
            Some(_) => Some(Upstream::Control { icao, control }),
            None => None,
        }
    }

    fn on_config(&mut self, data: config::Aerodrome)
        requires
            old(self).wf(),
        ensures
            final(self).wf(),
            final(self)@ == old(self)@.receive(Downstream::Config { data }),
    {
        let ghost before = self@;
        if self.position(&data.icao).is_none() {
            match Aerodrome::new(data) {
                Some(a) => {
                    proof {
                        assert forall|x: int| 0 <= x < self.aerodromes.len() implies (
                        #[trigger] self.aerodromes[x]).config.icao@ != a.config.icao@ by {
                            assert(before.aerodromes[x].config.icao@ != data.icao@);
                        }
                    }
                    self.aerodromes.push(a);
                    assert(self@.aerodromes =~= before.aerodromes.push(a@));
                },
                None => {},
            }
        }
    }

    fn on_control(&mut self, icao: String, control: bool)
        requires
            old(self).wf(),
        ensures
            final(self).wf(),
            final(self)@ == old(self)@.receive(Downstream::Control { icao, control }),
    {
        match self.position(&icao) {
            Some(i) => {
                let ghost before = self.aerodromes@;
                let mut a = self.lift(i);
                a.set_controlled(control);
                self.restore(i, a, Ghost(before));
            },
            None => {},
        }
    }

    fn on_patch(&mut self, icao: String, patch: Patch)
        requires
            old(self).wf(),
            patch.wf(),
        ensures
            final(self).wf(),
            final(self)@ == old(self)@.receive(Downstream::Patch { icao, patch }),
    {
        match self.position(&icao) {
            Some(i) => {
                let ghost before = self.aerodromes@;
                let mut a = self.lift(i);
                a.apply_patch(patch);
                proof {
                    crate::laws::lemma_patch_keeps_config(before[i as int]@, patch@);
                }
                self.restore(i, a, Ghost(before));
            },
            None => {},
        }
    }

    fn on_aircraft(&mut self, icao: String, aircraft: Vec<String>)
        requires
            old(self).wf(),
        ensures
            final(self).wf(),
            final(self)@ == old(self)@.receive(Downstream::Aircraft { icao, aircraft }),
    {
        match self.position(&icao) {
            Some(i) => {
                let ghost before = self.aerodromes@;
                let mut a = self.lift(i);
                a.set_aircraft(aircraft);
                self.restore(i, a, Ghost(before));
            },
            None => {},
        }
    }

    /// Takes one message from the broker and adds to `out` what the user is
    /// to be told and what is to be sent in turn.
    pub fn receive(&mut self, msg: Downstream, out: &mut TickOutput)
        requires
            old(self).wf(),
            msg.wf(),
        ensures
            final(self).wf(),
            final(self)@ == old(self)@.receive(msg),
            texts(final(out).messages@) == texts(old(out).messages@) + ClientView::told(msg),
            upstream_views(final(out).outbound@) == upstream_views(old(out).outbound@)
                + ClientView::answered(msg),
    {
        let ghost told = texts(out.messages@);
        let ghost sent = upstream_views(out.outbound@);
        assert(told + Seq::<Seq<char>>::empty() =~= told);
        assert(sent + Seq::<UpstreamView>::empty() =~= sent);
        match msg {
            Downstream::Config { data } => {
                self.on_config(data);
            },
            Downstream::Control { icao, control } => {
                self.on_control(icao, control);
            },
            Downstream::Patch { icao, patch } => {
                self.on_patch(icao, patch);
            },
            Downstream::Aircraft { icao, aircraft } => {
                self.on_aircraft(icao, aircraft);
            },
            Downstream::Error { icao, message, disconnect } => {
                let text = notice(&icao, &message);
                out.messages.push(text);
                assert(texts(out.messages@) =~= told + seq![text@]);
                if disconnect {
                    let reply = self.set_tracking(icao, false);
                    out.outbound.push(reply);
                    assert(upstream_views(out.outbound@) =~= sent + seq![reply@]);
                }
            },
        }
    }

    fn settle_one(&mut self, i: usize, now: u64, out: &mut TickOutput)
        requires
            old(self).wf(),
            i < old(self)@.aerodromes.len(),
        ensures
            final(self).wf(),
            final(self)@.aerodromes == old(self)@.aerodromes.update(
                i as int,
                old(self)@.aerodromes[i as int].tick(now).flushed(),
            ),
            final(out).messages == old(out).messages,
            upstream_views(final(out).outbound@) == upstream_views(old(out).outbound@)
                + ClientView::dues(old(self)@.aerodromes[i as int].tick(now)),
    {
        let ghost before = self.aerodromes@;
        let ghost was_sent = upstream_views(out.outbound@);
        let mut a = self.lift(i);
        a.tick(now);
        let ghost ticked = a@;
        proof {
            crate::laws::lemma_tick_keeps_config(before[i as int]@, now);
        }
        let patch = a.take_patch();
        let scenery = a.take_scenery();
        assert(a@ == ticked.flushed());
        assert(was_sent + Seq::<UpstreamView>::empty() =~= was_sent);
        if !patch.is_empty() {
            let m = Upstream::Patch { icao: a.config.icao.clone(), patch };
            out.outbound.push(m);
            assert(upstream_views(out.outbound@) =~= was_sent + seq![m@]);
        }
        let ghost mid_sent = upstream_views(out.outbound@);
        assert(mid_sent + Seq::<UpstreamView>::empty() =~= mid_sent);
        if !scenery.is_empty() {
            let m = Upstream::Scenery { icao: a.config.icao.clone(), scenery };
            out.outbound.push(m);
            assert(upstream_views(out.outbound@) =~= mid_sent + seq![m@]);
        }
        assert(upstream_views(out.outbound@) =~= was_sent + ClientView::dues(ticked));
        self.restore(i, a, Ghost(before));
    }

    /// Lets time act on every aerodrome at `now` (milliseconds) and adds to
    /// `out` what they queued for sending.
    pub fn settle(&mut self, now: u64, out: &mut TickOutput)
        requires
            old(self).wf(),
        ensures
            final(self).wf(),
            final(self)@ == old(self)@.settle(now, old(self)@.aerodromes.len() as int).state,
            final(out).messages == old(out).messages,
            upstream_views(final(out).outbound@) == upstream_views(old(out).outbound@) + old(
                self,
            )@.settle(now, old(self)@.aerodromes.len() as int).outbound,
    {
        let ghost start = self@;
        let ghost sent = upstream_views(out.outbound@);
        assert(sent + Seq::<UpstreamView>::empty() =~= sent);
        let n = self.aerodromes.len();
        let mut i: usize = 0;
        while i < n
            invariant
                self.wf(),
                n == self@.aerodromes.len(),
                start.aerodromes.len() == n,
                i <= n,
                out.messages == old(out).messages,
                self@ == start.settle(now, i as int).state,
                upstream_views(out.outbound@) == sent + start.settle(now, i as int).outbound,
            decreases n - i,
        {
            let ghost step = start.settle(now, i as int);
            let ghost ticked = self@.aerodromes[i as int].tick(now);
            self.settle_one(i, now, out);
            assert(sent + step.outbound + ClientView::dues(ticked) =~= sent + (step.outbound
                + ClientView::dues(ticked)));
            i += 1;
        }
    }

    /// One tick: takes the messages that arrived, lets time act at `now`
    /// (milliseconds), and hands back what the user is to be told and what is
    /// to be sent.
    pub fn tick(&mut self, inbound: Vec<Downstream>, now: u64) -> (out: TickOutput)
        requires
            old(self).wf(),
            forall|i: int| 0 <= i < inbound.len() ==> (#[trigger] inbound[i]).wf(),
        ensures
            final(self).wf(),
            final(self)@ == old(self)@.tick(inbound@, now).state,
            texts(out.messages@) == old(self)@.tick(inbound@, now).messages,
            upstream_views(out.outbound@) == old(self)@.tick(inbound@, now).outbound,
    {
        let mut out = TickOutput { messages: Vec::new(), outbound: Vec::new() };
        assert(texts(out.messages@) =~= Seq::<Seq<char>>::empty());
        assert(upstream_views(out.outbound@) =~= Seq::<UpstreamView>::empty());
        let ghost all = inbound@;
        let mut rest = inbound;
        let mut rev: Vec<Downstream> = Vec::new();
        while rest.len() > 0
            invariant
                rest@.len() + rev@.len() == all.len(),
                forall|i: int| 0 <= i < rest@.len() ==> rest@[i] == all[i],
                forall|i: int| 0 <= i < rev@.len() ==> rev@[i] == all[all.len() - 1 - i],
            decreases rest.len(),
        {
            let m = rest.pop().unwrap();
            rev.push(m);
        }
        while rev.len() > 0
            invariant
                self.wf(),
                rev@.len() <= all.len(),
                forall|i: int| 0 <= i < all.len() ==> (#[trigger] all[i]).wf(),
                forall|i: int| 0 <= i < rev@.len() ==> rev@[i] == all[all.len() - 1 - i],
                self@ == old(self)@.receive_all(all, all.len() - rev@.len()).state,
                texts(out.messages@) == old(self)@.receive_all(all, all.len() - rev@.len()).messages,
                upstream_views(out.outbound@) == old(self)@.receive_all(
                    all,
                    all.len() - rev@.len(),
                ).outbound,
            decreases rev.len(),
        {
            let m = rev.pop().unwrap();
            assert(m == all[all.len() - rev@.len() - 1]);
            self.receive(m, &mut out);
        }
        let ghost received = old(self)@.receive_all(all, all.len() as int);
        self.settle(now, &mut out);
        out
    }

    /// The user sets node `node` of aerodrome `icao`; nothing happens where
    /// the aerodrome is not tracked.
    pub fn set_node(&mut self, icao: &String, node: usize, state: bool, now: u64)
        requires
            old(self).wf(),
        ensures
            final(self).wf(),
            final(self)@ == old(self)@.amend(icao@, old(self)@.at(icao@).set_node(node, state, now)),
    {
        match self.position(icao) {
            Some(i) => {
                let ghost before = self.aerodromes@;
                let mut a = self.lift(i);
                a.set_node(node, state, now);
                self.restore(i, a, Ghost(before));
            },
            None => {},
        }
    }

    /// The user sets block `block` of aerodrome `icao`; nothing happens where
    /// the aerodrome is not tracked.
    pub fn set_block(&mut self, icao: &String, block: usize, state: BlockState, now: u64)
        requires
            old(self).wf(),
        ensures
            final(self).wf(),
            final(self)@ == old(self)@.amend(
                icao@,
                old(self)@.at(icao@).set_block(block, state, now),
            ),
    {
        match self.position(icao) {
            Some(i) => {
                let ghost before = self.aerodromes@;
                let mut a = self.lift(i);
                a.set_block(block, state, now);
                self.restore(i, a, Ghost(before));
            },
            None => {},
        }
    }

    /// The user routes between two nodes of aerodrome `icao`; nothing happens
    /// where the aerodrome is not tracked.
    pub fn set_route(&mut self, icao: &String, route: (usize, usize), now: u64)
        requires
            old(self).wf(),
        ensures
            final(self).wf(),
            final(self)@ == old(self)@.amend(
                icao@,
                old(self)@.at(icao@).set_route(route.0, route.1, now),
            ),
    {
        match self.position(icao) {
            Some(i) => {
                let ghost before = self.aerodromes@;
                let mut a = self.lift(i);
                a.set_route(route, now);
                self.restore(i, a, Ghost(before));
            },
            None => {},
        }
    }

    /// The user picks profile `profile` of aerodrome `icao`; nothing happens
    /// where the aerodrome is not tracked.
    pub fn set_profile(&mut self, icao: &String, profile: usize)
        requires
            old(self).wf(),
        ensures
            final(self).wf(),
            final(self)@ == old(self)@.amend(icao@, old(self)@.at(icao@).set_profile(profile)),
    {
        match self.position(icao) {
            Some(i) => {
                let ghost before = self.aerodromes@;
                let mut a = self.lift(i);
                a.set_profile(profile);
                self.restore(i, a, Ghost(before));
            },
            None => {},
        }
    }

    /// The user applies preset `preset` at aerodrome `icao`; nothing happens
    /// where the aerodrome is not tracked.
    pub fn apply_preset(&mut self, icao: &String, preset: usize)
        requires
            old(self).wf(),
        ensures
            final(self).wf(),
            final(self)@ == old(self)@.amend(icao@, old(self)@.at(icao@).apply_preset(preset)),
    {
        match self.position(icao) {
            Some(i) => {
                let ghost before = self.aerodromes@;
                let mut a = self.lift(i);
                a.apply_preset(preset);
                self.restore(i, a, Ghost(before));
            },
            None => {},
        }
    }
}

} // verus!
