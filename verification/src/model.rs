//! The mathematical model of one tracked aerodrome on the client side, and
//! the derivation of node and edge illumination from it.

use crate::config::{lists_pair, Aerodrome, BlockState, EdgeCondition, NodeCondition};
use crate::protocol::PatchView;
use crate::topology::{children_of, children_upto, lemma_children_in_range, slots};
use vstd::prelude::*;

verus! {

/// What the local user does at an aerodrome.
#[derive(Clone, Copy, Debug, Hash, PartialEq, Eq, PartialOrd, Ord, Structural)]
pub enum ActivityState {
    Inactive,
    Observing,
    Controlling,
}

/// A replicated cell: the value the server last confirmed, and the value set
/// locally that it has not confirmed yet.
#[derive(Clone, Copy, Debug)]
pub struct State<T> {
    pub current: T,
    pub pending: Option<T>,
}

impl<T> State<T> {
    /// The value in effect: the pending one where there is one.
    pub open spec fn effective(self) -> T {
        match self.pending {
            Some(p) => p,
            None => self.current,
        }
    }

    /// The value in effect.
    pub fn state(&self) -> (r: &T)
        ensures
            *r == self.effective(),
    {
        match &self.pending {
            Some(p) => p,
            None => &self.current,
        }
    }
}

/// A deferred reset of the cell `index`, set at `set_at` milliseconds and due
/// `delay_secs` seconds later.
#[derive(Clone, Copy, Debug, PartialEq, Eq, Structural)]
pub struct Timer {
    pub index: usize,
    pub set_at: u64,
    pub delay_secs: u32,
}

impl Timer {
    /// The time in milliseconds at which the timer fires.
    pub open spec fn deadline(self) -> int {
        self.set_at + 1000 * self.delay_secs
    }

    /// Whether the timer fires at time `now`.
    pub open spec fn due(self, now: u64) -> bool {
        self.deadline() <= now
    }

    /// Tests `due`.
    pub fn is_due(&self, now: u64) -> (r: bool)
        ensures
            r == self.due(now),
    {
        let deadline: u128 = self.set_at as u128 + 1000u128 * (self.delay_secs as u128);
        deadline <= now as u128
    }
}

/// The first components of `pairs`.
pub open spec fn firsts(pairs: Seq<(usize, usize)>) -> Seq<usize> {
    Seq::new(pairs.len(), |i: int| pairs[i].0)
}

/// The second components of `pairs`.
pub open spec fn seconds(pairs: Seq<(usize, usize)>) -> Seq<usize> {
    Seq::new(pairs.len(), |i: int| pairs[i].1)
}

/// Every element of `a` occurs in `b`.
pub open spec fn within(a: Seq<usize>, b: Seq<usize>) -> bool {
    forall|i: int| 0 <= i < a.len() ==> b.contains(#[trigger] a[i])
}

/// The route `r` turned so that its first end lies in `ac` where it has one
/// there.
pub open spec fn oriented(ac: Seq<usize>, r: (usize, usize)) -> (usize, usize) {
    if ac.contains(r.0) {
        r
    } else {
        (r.1, r.0)
    }
}

/// All routes of `routes`, each oriented towards `ac`.
pub open spec fn oriented_all(ac: Seq<usize>, routes: Seq<(usize, usize)>) -> Seq<(usize, usize)> {
    Seq::new(routes.len(), |i: int| oriented(ac, routes[i]))
}

/// The pairs `(a, b)` with `b` among the first `len` of `bc` that `nr` does
/// not forbid, in the order of `bc`.
pub open spec fn cand_row(nr: Seq<(usize, usize)>, a: usize, bc: Seq<usize>, len: int) -> Seq<
    (usize, usize),
>
    decreases len,
{
    if len <= 0 {
        Seq::empty()
    } else if !lists_pair(nr, a, bc[len - 1]) {
        cand_row(nr, a, bc, len - 1).push((a, bc[len - 1]))
    } else {
        cand_row(nr, a, bc, len - 1)
    }
}

/// The rows of the first `len` of `ac`, one after the other.
pub open spec fn cand_rows(nr: Seq<(usize, usize)>, ac: Seq<usize>, bc: Seq<usize>, len: int) -> Seq<
    (usize, usize),
>
    decreases len,
{
    if len <= 0 {
        Seq::empty()
    } else {
        cand_rows(nr, ac, bc, len - 1) + cand_row(nr, ac[len - 1], bc, bc.len() as int)
    }
}

/// The state of one client-side aerodrome, as mathematics.
pub struct AeroView {
    pub config: Aerodrome,
    pub activity: ActivityState,
    pub profile: usize,
    pub nodes: Seq<State<bool>>,
    pub blocks: Seq<State<BlockState>>,
    pub aircraft: Seq<Seq<char>>,
    pub pending_patch: PatchView,
    pub pending_scenery: Map<Seq<char>, bool>,
    pub node_timers: Seq<Timer>,
    pub block_timers: Seq<Timer>,
}

impl AeroView {
    /// The state fits its configuration: the active profile exists, there is
    /// one cell per node and per block, routes name nodes that exist, and
    /// timers name cells that exist.
    pub open spec fn wf(self) -> bool {
        &&& self.config.wf()
        &&& self.profile < self.config.profiles.len()
        &&& self.nodes.len() == self.config.nodes.len()
        &&& self.blocks.len() == self.config.blocks.len()
        &&& forall|b: int|
            0 <= b < self.blocks.len() ==> {
                &&& self.config.state_ok((#[trigger] self.blocks[b]).current)
                &&& self.blocks[b].pending matches Some(p) ==> self.config.state_ok(p)
            }
        &&& forall|i: int|
            0 <= i < self.node_timers.len() ==> (#[trigger] self.node_timers[i]).index
                < self.nodes.len()
        &&& forall|i: int|
            0 <= i < self.block_timers.len() ==> (#[trigger] self.block_timers[i]).index
                < self.blocks.len()
    }

    /// The condition that the active profile gives node `n`.
    pub open spec fn node_condition(self, n: usize) -> NodeCondition {
        self.config.profiles[self.profile as int].nodes[n as int]
    }

    /// The two block slots of node `n`.
    pub open spec fn node_blocks(self, n: usize) -> (int, int) {
        slots(self.config.borders(n))
    }

    /// Whether block `b` lets node `node` show: the block exists and is clear,
    /// or it is routed past the node.
    pub open spec fn block_passes(self, b: int, node: usize) -> bool {
        0 <= b < self.blocks.len() && match self.blocks[b].effective() {
            BlockState::Clear => true,
            BlockState::Relax => false,
            BlockState::Route((x, y)) => x != node && y != node,
        }
    }

    /// Whether node `n` is lit.
    pub open spec fn node_lit(self, n: usize) -> bool {
        match self.node_condition(n) {
            NodeCondition::Fixed(state) => state,
            NodeCondition::Direct(_) => self.nodes[n as int].effective(),
            NodeCondition::Router => self.block_passes(self.node_blocks(n).0, n)
                || self.block_passes(self.node_blocks(n).1, n),
        }
    }

    /// The nodes that stand for `p` in a route: its children, or itself where
    /// it has none.
    pub open spec fn family(self, p: usize) -> Seq<usize> {
        let children = children_of(self.config, p);
        if children.len() > 0 {
            children
        } else {
            seq![p]
        }
    }

    /// The concrete routes that the route of block `block` may stand for:
    /// the pairs of a member of each end's family that the block does not
    /// forbid. Empty where the block has no route.
    pub open spec fn route_candidates(self, block: usize) -> Seq<(usize, usize)> {
        match self.blocks[block as int].effective() {
            BlockState::Route((ap, bp)) => cand_rows(
                self.config.blocks[block as int].non_routes@,
                self.family(ap),
                self.family(bp),
                self.family(ap).len() as int,
            ),
            _ => Seq::empty(),
        }
    }

    /// The block on the far side of `parent`, seen from `block`.
    pub open spec fn adjacent(self, block: usize, parent: usize) -> int {
        let s = self.node_blocks(parent);
        if s.0 != block {
            s.0
        } else {
            s.1
        }
    }

    /// The ends that remain possible at `parent` once the adjacent block is
    /// taken into account, starting from `own`. Nothing where the adjacent
    /// block is relaxed.
    pub open spec fn restricted(self, block: usize, parent: usize, own: Seq<usize>) -> Option<
        Seq<usize>,
    > {
        let adjacent = self.adjacent(block, parent);
        match self.blocks[adjacent].effective() {
            BlockState::Clear => Some(own),
            BlockState::Relax => None,
            BlockState::Route((x, y)) => {
                let points = self.route_candidates(adjacent as usize);
                if x == parent {
                    Some(firsts(points))
                } else if y == parent {
                    Some(seconds(points))
                } else {
                    Some(own)
                }
            },
        }
    }

    /// Whether an edge that follows the routes `routes` of block `block` is
    /// lit while the block is routed from `ap` to `bp`.
    pub open spec fn routed_edge_lit(
        self,
        block: usize,
        routes: Seq<(usize, usize)>,
        ap: usize,
        bp: usize,
    ) -> bool {
        let cands = self.route_candidates(block);
        if cands.len() == 0 {
            false
        } else if cands.len() == 1 {
            lists_pair(routes, cands[0].0, cands[0].1)
        } else {
            let wanted = oriented_all(self.family(ap), routes);
            match (
                self.restricted(block, ap, firsts(cands)),
                self.restricted(block, bp, seconds(cands)),
            ) {
                (Some(a), Some(b)) => within(a, firsts(wanted)) && within(b, seconds(wanted)),
                _ => false,
            }
        }
    }

    /// Whether edge `e` is lit.
    pub open spec fn edge_lit(self, e: usize) -> bool {
        match self.config.profiles[self.profile as int].edges[e as int] {
            EdgeCondition::Fixed(state) => state,
            EdgeCondition::Direct(node) => !self.node_lit(node),
            EdgeCondition::Router { block, routes } => match self.blocks[block as int].effective() {
                BlockState::Clear => false,
                BlockState::Relax => true,
                BlockState::Route((ap, bp)) => self.routed_edge_lit(block, routes@, ap, bp),
            },
        }
    }

    /// This state with block `b` in effect clear, nothing else changed.
    pub open spec fn with_block_clear(self, b: int) -> AeroView {
        AeroView {
            blocks: self.blocks.update(
                b,
                State { pending: Some(BlockState::Clear), ..self.blocks[b] },
            ),
            ..self
        }
    }
}

/// Clearing a block never puts out a node that follows the routes: if a
/// router node was lit, it is still lit once any block is made clear.
pub proof fn lemma_clear_keeps_router_lit(v: AeroView, n: usize, b: int)
    requires
        v.wf(),
        n < v.nodes.len(),
        0 <= b < v.blocks.len(),
        v.node_condition(n) == NodeCondition::Router,
        v.node_lit(n),
    ensures
        v.with_block_clear(b).node_lit(n),
{
    let w = v.with_block_clear(b);
    let s = v.node_blocks(n);
    if v.block_passes(s.0, n) {
        assert(w.block_passes(s.0, n));
    } else {
        assert(w.block_passes(s.1, n));
    }
}

/// Every pair of a row starts at the row's node, ends in `bc`, and is not
/// forbidden.
pub proof fn lemma_cand_row(nr: Seq<(usize, usize)>, a: usize, bc: Seq<usize>, len: int)
    requires
        0 <= len <= bc.len(),
    ensures
        forall|i: int|
            0 <= i < cand_row(nr, a, bc, len).len() ==> {
                let r = #[trigger] cand_row(nr, a, bc, len)[i];
                r.0 == a && bc.contains(r.1) && !lists_pair(nr, r.0, r.1)
            },
    decreases len,
{
    if len > 0 {
        lemma_cand_row(nr, a, bc, len - 1);
        let all = cand_row(nr, a, bc, len);
        let head = cand_row(nr, a, bc, len - 1);
        assert forall|i: int| 0 <= i < all.len() implies {
            let r = #[trigger] all[i];
            r.0 == a && bc.contains(r.1) && !lists_pair(nr, r.0, r.1)
        } by {
            if i < head.len() {
                assert(all[i] == head[i]);
            } else {
                assert(all[i] == (a, bc[len - 1]));
            }
        }
    }
}

/// Every candidate pairs a member of `ac` with a member of `bc` and is not
/// forbidden.
pub proof fn lemma_cand_rows(nr: Seq<(usize, usize)>, ac: Seq<usize>, bc: Seq<usize>, len: int)
    requires
        0 <= len <= ac.len(),
    ensures
        forall|i: int|
            0 <= i < cand_rows(nr, ac, bc, len).len() ==> {
                let r = #[trigger] cand_rows(nr, ac, bc, len)[i];
                ac.contains(r.0) && bc.contains(r.1) && !lists_pair(nr, r.0, r.1)
            },
    decreases len,
{
    if len > 0 {
        lemma_cand_rows(nr, ac, bc, len - 1);
        lemma_cand_row(nr, ac[len - 1], bc, bc.len() as int);
        let all = cand_rows(nr, ac, bc, len);
        let head = cand_rows(nr, ac, bc, len - 1);
        let row = cand_row(nr, ac[len - 1], bc, bc.len() as int);
        assert forall|i: int| 0 <= i < all.len() implies {
            let r = #[trigger] all[i];
            ac.contains(r.0) && bc.contains(r.1) && !lists_pair(nr, r.0, r.1)
        } by {
            if i < head.len() {
                assert(all[i] == head[i]);
            } else {
                assert(all[i] == row[i - head.len()]);
            }
        }
    }
}

/// A member of a node's family is one of its children or the node itself.
pub proof fn lemma_family(v: AeroView, p: usize, x: usize)
    requires
        v.family(p).contains(x),
    ensures
        x == p || children_of(v.config, p).contains(x),
        x == p || (x < v.config.nodes.len() && v.config.nodes[x as int].parent == Some(p)),
{
    let children = children_of(v.config, p);
    if children.len() > 0 {
        lemma_children_in_range(v.config, p, v.config.nodes.len() as int);
        let i = choose|i: int| 0 <= i < children.len() && children[i] == x;
        assert(children_upto(v.config, p, v.config.nodes.len() as int)[i] == x);
    } else {
        assert(seq![p][0] == p);
    }
}

/// The candidates of a block routed from `a` to `b` lie among the pairs of a
/// child of `a` or `a` itself with a child of `b` or `b` itself, and none of
/// them is one of the block's forbidden pairs.
pub proof fn lemma_candidates_within_families(v: AeroView, block: usize, a: usize, b: usize)
    requires
        v.wf(),
        block < v.blocks.len(),
        v.blocks[block as int].effective() == BlockState::Route((a, b)),
    ensures
        forall|i: int|
            0 <= i < v.route_candidates(block).len() ==> {
                let r = #[trigger] v.route_candidates(block)[i];
                &&& r.0 == a || children_of(v.config, a).contains(r.0)
                &&& r.1 == b || children_of(v.config, b).contains(r.1)
                &&& !lists_pair(v.config.blocks[block as int].non_routes@, r.0, r.1)
            },
{
    let nr = v.config.blocks[block as int].non_routes@;
    let ac = v.family(a);
    let bc = v.family(b);
    lemma_cand_rows(nr, ac, bc, ac.len() as int);
    assert forall|i: int| 0 <= i < v.route_candidates(block).len() implies {
        let r = #[trigger] v.route_candidates(block)[i];
        &&& r.0 == a || children_of(v.config, a).contains(r.0)
        &&& r.1 == b || children_of(v.config, b).contains(r.1)
        &&& !lists_pair(nr, r.0, r.1)
    } by {
        let r = v.route_candidates(block)[i];
        lemma_family(v, a, r.0);
        lemma_family(v, b, r.1);
    }
}

} // verus!
