//! How local intents and timers change the model of an aerodrome.

use crate::config::{
    is_wildcard, Aerodrome, BlockCondition, BlockState, NodeCondition, ResetCondition,
};
use crate::model::{AeroView, State, Timer};
use crate::protocol::{BlockStateView, PatchView};
use crate::topology::slots;
use vstd::prelude::*;

verus! {

/// The timers of `timers` that satisfy `pred`, in order.
pub open spec fn keep(timers: Seq<Timer>, pred: spec_fn(Timer) -> bool) -> Seq<Timer>
    decreases timers.len(),
{
    if timers.len() == 0 {
        Seq::empty()
    } else if pred(timers.last()) {
        keep(timers.drop_last(), pred).push(timers.last())
    } else {
        keep(timers.drop_last(), pred)
    }
}

/// The predicate "is not a timer of cell `index`".
pub open spec fn other_than(index: usize) -> spec_fn(Timer) -> bool {
    |t: Timer| t.index != index
}

/// The timers of `timers` that are not for cell `index`.
pub open spec fn without(timers: Seq<Timer>, index: usize) -> Seq<Timer> {
    keep(timers, other_than(index))
}

/// How many entries of `flags` are false.
pub open spec fn count_false(flags: Seq<bool>) -> nat
    decreases flags.len(),
{
    if flags.len() == 0 {
        0
    } else {
        count_false(flags.drop_last()) + if flags.last() {
            0nat
        } else {
            1nat
        }
    }
}

/// Setting a false flag leaves one false flag fewer.
pub proof fn lemma_count_false_set(flags: Seq<bool>, i: int)
    requires
        0 <= i < flags.len(),
        !flags[i],
    ensures
        count_false(flags.update(i, true)) + 1 == count_false(flags),
    decreases flags.len(),
{
    let next = flags.update(i, true);
    if i == flags.len() - 1 {
        assert(next.drop_last() =~= flags.drop_last());
    } else {
        lemma_count_false_set(flags.drop_last(), i);
        assert(next.drop_last() =~= flags.drop_last().update(i, true));
    }
}

/// What is kept is no longer than what there was, and all of it satisfies the
/// predicate and was there.
pub proof fn lemma_keep(timers: Seq<Timer>, pred: spec_fn(Timer) -> bool)
    ensures
        keep(timers, pred).len() <= timers.len(),
        forall|i: int|
            0 <= i < keep(timers, pred).len() ==> pred(#[trigger] keep(timers, pred)[i])
                && timers.contains(keep(timers, pred)[i]),
    decreases timers.len(),
{
    if timers.len() > 0 {
        lemma_keep(timers.drop_last(), pred);
        let all = keep(timers, pred);
        let head = keep(timers.drop_last(), pred);
        assert forall|i: int| 0 <= i < all.len() implies pred(#[trigger] all[i])
            && timers.contains(all[i]) by {
            if i < head.len() {
                assert(all[i] == head[i]);
                let j = choose|j: int|
                    0 <= j < timers.drop_last().len() && timers.drop_last()[j] == head[i];
                assert(timers[j] == head[i]);
            } else {
                assert(all[i] == timers.last());
                assert(timers[timers.len() - 1] == timers.last());
            }
        }
    }
}

/// Timers that are kept name cells below `n` where all timers did.
pub proof fn lemma_keep_in_range(timers: Seq<Timer>, pred: spec_fn(Timer) -> bool, n: int)
    requires
        forall|i: int| 0 <= i < timers.len() ==> (#[trigger] timers[i]).index < n,
    ensures
        forall|i: int|
            0 <= i < keep(timers, pred).len() ==> (#[trigger] keep(timers, pred)[i]).index < n,
{
    lemma_keep(timers, pred);
    assert forall|i: int| 0 <= i < keep(timers, pred).len() implies (#[trigger] keep(
        timers,
        pred,
    )[i]).index < n by {
        let x = keep(timers, pred)[i];
        assert(timers.contains(x));
        let j = choose|j: int| 0 <= j < timers.len() && timers[j] == x;
        assert(timers[j].index < n);
    }
}

/// Keeping by two predicates in turn is keeping by both at once.
pub proof fn lemma_keep_twice(
    timers: Seq<Timer>,
    p: spec_fn(Timer) -> bool,
    q: spec_fn(Timer) -> bool,
    both: spec_fn(Timer) -> bool,
)
    requires
        forall|t: Timer| #[trigger] both(t) == (p(t) && q(t)),
    ensures
        keep(keep(timers, p), q) == keep(timers, both),
    decreases timers.len(),
{
    if timers.len() > 0 {
        lemma_keep_twice(timers.drop_last(), p, q, both);
        let head = keep(timers.drop_last(), p);
        if p(timers.last()) {
            assert(head.push(timers.last()).drop_last() =~= head);
        }
    }
}

/// Keeping by two predicates that agree gives the same.
pub proof fn lemma_keep_same(timers: Seq<Timer>, p: spec_fn(Timer) -> bool, q: spec_fn(Timer) -> bool)
    requires
        forall|t: Timer| #[trigger] p(t) == q(t),
    ensures
        keep(timers, p) == keep(timers, q),
    decreases timers.len(),
{
    if timers.len() > 0 {
        lemma_keep_same(timers.drop_last(), p, q);
    }
}

/// Where no timer is dropped, all are kept.
pub proof fn lemma_keep_all(timers: Seq<Timer>, p: spec_fn(Timer) -> bool)
    requires
        forall|i: int| 0 <= i < timers.len() ==> p(#[trigger] timers[i]),
    ensures
        keep(timers, p) == timers,
    decreases timers.len(),
{
    if timers.len() > 0 {
        assert forall|i: int| 0 <= i < timers.drop_last().len() implies p(
            #[trigger] timers.drop_last()[i],
        ) by {
            assert(timers.drop_last()[i] == timers[i]);
        }
        lemma_keep_all(timers.drop_last(), p);
        assert(timers.drop_last().push(timers.last()) =~= timers);
    }
}

/// The state `s` with its route given by node identifiers.
pub open spec fn wire_state(c: Aerodrome, s: BlockState) -> BlockStateView {
    match s {
        BlockState::Clear => BlockStateView::Clear,
        BlockState::Relax => BlockStateView::Relax,
        BlockState::Route((a, b)) => BlockStateView::Route(
            c.nodes[a as int].id@,
            c.nodes[b as int].id@,
        ),
    }
}

/// Whether some node of `c` is called `id`.
pub open spec fn names_node(c: Aerodrome, id: Seq<char>) -> bool {
    exists|i: int| 0 <= i < c.nodes.len() && #[trigger] c.nodes[i].id@ == id
}

/// The node of `c` called `id` (meaningful when `names_node(c, id)`).
pub open spec fn node_named(c: Aerodrome, id: Seq<char>) -> usize {
    (choose|i: int| 0 <= i < c.nodes.len() && #[trigger] c.nodes[i].id@ == id) as usize
}

/// The state `w` with its route given by node indices, where `c` knows both
/// nodes.
pub open spec fn local_state(c: Aerodrome, w: BlockStateView) -> Option<BlockState> {
    match w {
        BlockStateView::Clear => Some(BlockState::Clear),
        BlockStateView::Relax => Some(BlockState::Relax),
        BlockStateView::Route(a, b) => if names_node(c, a) && names_node(c, b) {
            Some(BlockState::Route((node_named(c, a), node_named(c, b))))
        } else {
            None
        },
    }
}

/// With unique identifiers, a node is the one that its identifier names.
pub proof fn lemma_node_named(c: Aerodrome, i: int)
    requires
        c.ids_distinct(),
        0 <= i < c.nodes.len(),
    ensures
        names_node(c, c.nodes[i].id@),
        node_named(c, c.nodes[i].id@) == i,
{
    let id = c.nodes[i].id@;
    let j = choose|j: int| 0 <= j < c.nodes.len() && #[trigger] c.nodes[j].id@ == id;
    if j < i {
        assert(c.nodes[j].id@ != c.nodes[i].id@);
    } else if i < j {
        assert(c.nodes[i].id@ != c.nodes[j].id@);
    }
}

/// A state written with identifiers reads back as itself.
pub proof fn lemma_wire_round_trip(c: Aerodrome, s: BlockState)
    requires
        c.ids_distinct(),
        c.state_ok(s),
    ensures
        local_state(c, wire_state(c, s)) == Some(s),
{
    match s {
        BlockState::Route((a, b)) => {
            lemma_node_named(c, a as int);
            lemma_node_named(c, b as int);
        },
        _ => {},
    }
}

/// The default value of a node under a condition: a fixed node has its fixed
/// value, a direct node is lit exactly if it resets by itself, a router node
/// is lit.
pub open spec fn default_node(cond: NodeCondition) -> bool {
    match cond {
        NodeCondition::Fixed(state) => state,
        NodeCondition::Direct(reset) => reset != ResetCondition::Never,
        NodeCondition::Router => true,
    }
}

/// The map from the identifiers of the first `len` nodes to their values in
/// effect.
pub open spec fn node_values(c: Aerodrome, nodes: Seq<State<bool>>, len: int) -> Map<Seq<char>, bool>
    decreases len,
{
    if len <= 0 {
        Map::empty()
    } else {
        node_values(c, nodes, len - 1).insert(c.nodes[len - 1].id@, nodes[len - 1].effective())
    }
}

/// The map from the identifiers of the first `len` blocks to their states in
/// effect.
pub open spec fn block_values(c: Aerodrome, blocks: Seq<State<BlockState>>, len: int) -> Map<
    Seq<char>,
    BlockStateView,
>
    decreases len,
{
    if len <= 0 {
        Map::empty()
    } else {
        block_values(c, blocks, len - 1).insert(
            c.blocks[len - 1].id@,
            wire_state(c, blocks[len - 1].effective()),
        )
    }
}

/// The blocks reached from `block` through the fixed dark nodes among the
/// first `len` nodes of its boundary: both slots of each such node.
pub open spec fn beyond(c: Aerodrome, profile: usize, block: usize, len: int) -> Seq<usize>
    decreases len,
{
    if len <= 0 {
        Seq::empty()
    } else {
        let node = c.blocks[block as int].nodes[len - 1];
        let rest = beyond(c, profile, block, len - 1);
        if c.profiles[profile as int].nodes[node as int] == NodeCondition::Fixed(false) {
            rest.push(slots(c.borders(node)).0 as usize).push(slots(c.borders(node)).1 as usize)
        } else {
            rest
        }
    }
}

impl AeroView {
    /// The state of a freshly loaded aerodrome: the first profile, every cell
    /// at its default, nothing pending.
    pub open spec fn initial(c: Aerodrome) -> AeroView {
        AeroView {
            config: c,
            activity: crate::model::ActivityState::Inactive,
            profile: 0,
            nodes: Seq::empty(),
            blocks: Seq::empty(),
            aircraft: Seq::empty(),
            pending_patch: PatchView::empty(),
            pending_scenery: Map::empty(),
            node_timers: Seq::empty(),
            block_timers: Seq::empty(),
        }.default_state(false)
    }

    /// Every cell back at the default of the active profile and all timers
    /// cancelled. With `patch`, the whole state is queued for sending.
    pub open spec fn default_state(self, patch: bool) -> AeroView {
        let nodes = Seq::new(
            self.config.nodes.len() as nat,
            |i: int|
                State { current: default_node(self.node_condition(i as usize)), pending: None },
        );
        let blocks = Seq::new(
            self.config.blocks.len() as nat,
            |i: int| State { current: BlockState::Clear, pending: None },
        );
        AeroView {
            nodes,
            blocks,
            pending_patch: if patch {
                PatchView {
                    profile: self.pending_patch.profile,
                    nodes: node_values(self.config, nodes, nodes.len() as int),
                    blocks: block_values(self.config, blocks, blocks.len() as int),
                }
            } else {
                self.pending_patch
            },
            node_timers: Seq::empty(),
            block_timers: Seq::empty(),
            ..self
        }
    }

    /// Profile `i` becomes active and the whole default state is queued; an
    /// index with no profile changes nothing.
    pub open spec fn set_profile(self, i: usize) -> AeroView {
        if i >= self.config.profiles.len() {
            self
        } else {
            AeroView {
                profile: i,
                pending_patch: PatchView {
                    profile: Some(self.config.profiles[i as int].id@),
                    ..self.pending_patch
                },
                ..self
            }.default_state(true)
        }
    }

    /// The timer that a node gets when it is set to `state` at `now`, if any:
    /// one only where it is put out and resets by itself.
    pub open spec fn node_timer(self, node: usize, state: bool, now: u64) -> Option<Timer> {
        match (state, self.node_condition(node)) {
            (false, NodeCondition::Direct(ResetCondition::TimeSecs(secs))) => Some(
                Timer { index: node, set_at: now, delay_secs: secs },
            ),
            _ => None,
        }
    }

    /// The timer that a block gets when it is set to `state` at `now`, if any:
    /// one only where it leaves the clear state and resets by itself.
    pub open spec fn block_timer(self, block: usize, state: BlockState, now: u64) -> Option<Timer> {
        match (state, self.config.profiles[self.profile as int].blocks[block as int]) {
            (BlockState::Clear, _) => None,
            (_, BlockCondition(ResetCondition::TimeSecs(secs))) => Some(
                Timer { index: block, set_at: now, delay_secs: secs },
            ),
            _ => None,
        }
    }

    /// Node `node` is set to `state` locally: the value is pending and queued
    /// for sending, the node's timer is replaced.
    pub open spec fn set_node_state(self, node: usize, state: bool, now: u64) -> AeroView {
        AeroView {
            nodes: self.nodes.update(
                node as int,
                State { pending: Some(state), ..self.nodes[node as int] },
            ),
            pending_patch: PatchView {
                nodes: self.pending_patch.nodes.insert(self.config.nodes[node as int].id@, state),
                ..self.pending_patch
            },
            node_timers: match self.node_timer(node, state, now) {
                Some(t) => without(self.node_timers, node).push(t),
                None => without(self.node_timers, node),
            },
            ..self
        }
    }

    /// Block `block` is set to `state` locally: the value is pending and
    /// queued for sending, the block's timer is replaced.
    pub open spec fn set_block_state(self, block: usize, state: BlockState, now: u64) -> AeroView {
        AeroView {
            blocks: self.blocks.update(
                block as int,
                State { pending: Some(state), ..self.blocks[block as int] },
            ),
            pending_patch: PatchView {
                blocks: self.pending_patch.blocks.insert(
                    self.config.blocks[block as int].id@,
                    wire_state(self.config, state),
                ),
                ..self.pending_patch
            },
            block_timers: match self.block_timer(block, state, now) {
                Some(t) => without(self.block_timers, block).push(t),
                None => without(self.block_timers, block),
            },
            ..self
        }
    }

    /// The user sets node `node`: it takes effect only on a node that exists
    /// and that the active profile lets the user drive.
    pub open spec fn set_node(self, node: usize, state: bool, now: u64) -> AeroView {
        if node < self.nodes.len() && self.node_condition(node) is Direct {
            self.set_node_state(node, state, now)
        } else {
            self
        }
    }

    /// Sets `state` on the block on top of `stack` and on every block reached
    /// from it through fixed dark nodes, each once, going depth first.
    pub open spec fn cascade(
        self,
        stack: Seq<usize>,
        visited: Seq<bool>,
        state: BlockState,
        now: u64,
    ) -> AeroView
        decreases count_false(visited), stack.len(),
    {
        if stack.len() == 0 {
            self
        } else {
            let block = stack.last();
            let rest = stack.drop_last();
            if block >= visited.len() || visited[block as int] {
                self.cascade(rest, visited, state, now)
            } else {
                proof {
                    lemma_count_false_set(visited, block as int);
                }
                self.set_block_state(block, state, now).cascade(
                    rest + beyond(
                        self.config,
                        self.profile,
                        block,
                        self.config.blocks[block as int].nodes.len() as int,
                    ),
                    visited.update(block as int, true),
                    state,
                    now,
                )
            }
        }
    }

    /// The user sets block `block`: the state spreads to the blocks that
    /// continue it. Nothing happens for a block that does not exist or a
    /// route between nodes that do not.
    pub open spec fn set_block(self, block: usize, state: BlockState, now: u64) -> AeroView {
        if block < self.blocks.len() && self.config.state_ok(state) {
            self.cascade(seq![block], Seq::new(self.blocks.len(), |i: int| false), state, now)
        } else {
            self
        }
    }

    /// The node cells and the queued values after the first `len` entries of
    /// a wildcard `state` were written: every node that `written` does not
    /// name yet gets it.
    pub open spec fn fill_nodes(
        self,
        cells: Seq<State<bool>>,
        written: Map<Seq<char>, bool>,
        state: bool,
        len: int,
    ) -> (Seq<State<bool>>, Map<Seq<char>, bool>)
        decreases len,
    {
        if len <= 0 {
            (cells, written)
        } else {
            let (c, w) = self.fill_nodes(cells, written, state, len - 1);
            let id = self.config.nodes[len - 1].id@;
            if w.contains_key(id) {
                (c, w)
            } else {
                (c.update(len - 1, State { pending: Some(state), ..c[len - 1] }), w.insert(id, state))
            }
        }
    }

    /// The node cells and the queued values after the first `len` node
    /// entries of a preset.
    pub open spec fn preset_nodes(self, entries: Seq<(usize, bool)>, len: int) -> (
        Seq<State<bool>>,
        Map<Seq<char>, bool>,
    )
        decreases len,
    {
        if len <= 0 {
            (self.nodes, Map::empty())
        } else {
            let (c, w) = self.preset_nodes(entries, len - 1);
            let (node, state) = entries[len - 1];
            if is_wildcard(node) {
                self.fill_nodes(c, w, state, self.nodes.len() as int)
            } else {
                (
                    c.update(node as int, State { pending: Some(state), ..c[node as int] }),
                    w.insert(self.config.nodes[node as int].id@, state),
                )
            }
        }
    }

    /// As `fill_nodes`, for blocks.
    pub open spec fn fill_blocks(
        self,
        cells: Seq<State<BlockState>>,
        written: Map<Seq<char>, BlockStateView>,
        state: BlockState,
        len: int,
    ) -> (Seq<State<BlockState>>, Map<Seq<char>, BlockStateView>)
        decreases len,
    {
        if len <= 0 {
            (cells, written)
        } else {
            let (c, w) = self.fill_blocks(cells, written, state, len - 1);
            let id = self.config.blocks[len - 1].id@;
            if w.contains_key(id) {
                (c, w)
            } else {
                (
                    c.update(len - 1, State { pending: Some(state), ..c[len - 1] }),
                    w.insert(id, wire_state(self.config, state)),
                )
            }
        }
    }

    /// As `preset_nodes`, for blocks.
    pub open spec fn preset_blocks(self, entries: Seq<(usize, BlockState)>, len: int) -> (
        Seq<State<BlockState>>,
        Map<Seq<char>, BlockStateView>,
    )
        decreases len,
    {
        if len <= 0 {
            (self.blocks, Map::empty())
        } else {
            let (c, w) = self.preset_blocks(entries, len - 1);
            let (block, state) = entries[len - 1];
            if is_wildcard(block) {
                self.fill_blocks(c, w, state, self.blocks.len() as int)
            } else {
                (
                    c.update(block as int, State { pending: Some(state), ..c[block as int] }),
                    w.insert(self.config.blocks[block as int].id@, wire_state(self.config, state)),
                )
            }
        }
    }

    /// Preset `i` of the active profile is applied: its values become
    /// pending, they replace what was queued for sending, and all timers are
    /// cancelled. An index with no preset changes nothing.
    pub open spec fn apply_preset(self, i: usize) -> AeroView {
        let presets = self.config.profiles[self.profile as int].presets;
        if i >= presets.len() {
            self
        } else {
            let preset = presets[i as int];
            let (nodes, node_patch) = self.preset_nodes(preset.nodes@, preset.nodes.len() as int);
            let (blocks, block_patch) = self.preset_blocks(
                preset.blocks@,
                preset.blocks.len() as int,
            );
            AeroView {
                nodes,
                blocks,
                pending_patch: PatchView {
                    profile: self.pending_patch.profile,
                    nodes: node_patch,
                    blocks: block_patch,
                },
                node_timers: Seq::empty(),
                block_timers: Seq::empty(),
                ..self
            }
        }
    }

    /// The first `count` changes of `plan` made in order; a change to a block
    /// that does not exist is passed over.
    pub open spec fn apply_plan(self, plan: Seq<(usize, BlockState)>, count: int, now: u64) -> AeroView
        decreases count,
    {
        if count <= 0 {
            self
        } else {
            let p = self.apply_plan(plan, count - 1, now);
            let (block, state) = plan[count - 1];
            if block < p.blocks.len() {
                p.set_block_state(block, state, now)
            } else {
                p
            }
        }
    }

    /// The user routes from `orgn` to `dest`: the blocks along the chain that
    /// the search finds are routed, from the origin on.
    pub open spec fn set_route(self, orgn: usize, dest: usize, now: u64) -> AeroView {
        let plan = crate::routing::route_plan(self.config, self.profile, orgn, dest);
        self.apply_plan(plan, plan.len() as int, now)
    }

    /// The position of the first timer of `timers[from..]` that is due.
    pub open spec fn first_due(timers: Seq<Timer>, now: u64, from: int) -> Option<int>
        decreases timers.len() - from,
    {
        if from < 0 || from >= timers.len() {
            None
        } else if timers[from].due(now) {
            Some(from)
        } else {
            Self::first_due(timers, now, from + 1)
        }
    }

    /// Every node timer that is due at `now` fires, the earliest set first:
    /// it leaves the list and its node is lit again.
    pub open spec fn fire_nodes(self, now: u64) -> AeroView
        decreases self.node_timers.len(),
    {
        match Self::first_due(self.node_timers, now, 0) {
            None => self,
            Some(i) => {
                let t = self.node_timers[i];
                let next = AeroView { node_timers: self.node_timers.remove(i), ..self }.set_node(
                    t.index,
                    true,
                    now,
                );
                proof {
                    lemma_first_due(self.node_timers, now, 0);
                    lemma_keep(self.node_timers.remove(i), other_than(t.index));
                }
                next.fire_nodes(now)
            },
        }
    }

    /// Every block timer that is due at `now` fires, the earliest set first:
    /// it leaves the list and its block is cleared.
    pub open spec fn fire_blocks(self, now: u64) -> AeroView
        decreases self.block_timers.len(),
    {
        match Self::first_due(self.block_timers, now, 0) {
            None => self,
            Some(i) => {
                let t = self.block_timers[i];
                let removed = AeroView { block_timers: self.block_timers.remove(i), ..self };
                let next = removed.set_block(t.index, BlockState::Clear, now);
                proof {
                    lemma_first_due(self.block_timers, now, 0);
                    lemma_cascade_frame(
                        removed,
                        seq![t.index],
                        Seq::new(removed.blocks.len(), |i: int| false),
                        BlockState::Clear,
                        now,
                    );
                }
                next.fire_blocks(now)
            },
        }
    }

    /// What time does to the aerodrome at `now`: the timers that are due fire.
    pub open spec fn tick(self, now: u64) -> AeroView {
        self.fire_nodes(now).fire_blocks(now)
    }

    /// Nothing is queued for sending any more.
    pub open spec fn flushed(self) -> AeroView {
        AeroView { pending_patch: PatchView::empty(), pending_scenery: Map::empty(), ..self }
    }
}

/// A cascade changes only the blocks, their timers and the queued block
/// values; and one that clears adds no timer.
pub proof fn lemma_cascade_frame(
    v: AeroView,
    stack: Seq<usize>,
    visited: Seq<bool>,
    state: BlockState,
    now: u64,
)
    ensures
        ({
            let r = v.cascade(stack, visited, state, now);
            &&& r.config == v.config
            &&& r.activity == v.activity
            &&& r.profile == v.profile
            &&& r.nodes == v.nodes
            &&& r.aircraft == v.aircraft
            &&& r.pending_scenery == v.pending_scenery
            &&& r.node_timers == v.node_timers
            &&& r.pending_patch.nodes == v.pending_patch.nodes
            &&& r.pending_patch.profile == v.pending_patch.profile
            &&& state == BlockState::Clear ==> r.block_timers.len() <= v.block_timers.len()
        }),
    decreases count_false(visited), stack.len(),
{
    if stack.len() > 0 {
        let block = stack.last();
        let rest = stack.drop_last();
        if block >= visited.len() || visited[block as int] {
            lemma_cascade_frame(v, rest, visited, state, now);
        } else {
            lemma_count_false_set(visited, block as int);
            let next = v.set_block_state(block, state, now);
            lemma_keep(v.block_timers, other_than(block));
            lemma_cascade_frame(
                next,
                rest + beyond(v.config, v.profile, block, v.config.blocks[block as int].nodes.len() as int),
                visited.update(block as int, true),
                state,
                now,
            );
        }
    }
}

/// The first due timer, if any, is due and none before it is.
pub proof fn lemma_first_due(timers: Seq<Timer>, now: u64, from: int)
    requires
        0 <= from,
    ensures
        match AeroView::first_due(timers, now, from) {
            Some(i) => from <= i < timers.len() && timers[i].due(now) && forall|j: int|
                from <= j < i ==> !(#[trigger] timers[j]).due(now),
            None => forall|j: int| from <= j < timers.len() ==> !(#[trigger] timers[j]).due(now),
        },
    decreases timers.len() - from,
{
    if from < timers.len() && !timers[from].due(now) {
        lemma_first_due(timers, now, from + 1);
    }
}

} // verus!
