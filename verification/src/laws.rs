//! Laws of the client-side model: what holds of every state, whatever the
//! configuration.

use crate::config::{is_wildcard, BlockState};
use crate::mutation::{lemma_wire_round_trip, wire_state};
use crate::protocol::BlockStateView;
use crate::model::{AeroView, State, Timer};
use crate::mutation::{
    keep, lemma_cascade_frame, lemma_keep, lemma_node_named, other_than, without,
};
use crate::protocol::PatchView;
use crate::topology::children_of;
use vstd::prelude::*;

verus! {

/// Once the node timers that are due have fired, none is due.
pub proof fn lemma_fire_nodes_settles(v: AeroView, now: u64)
    ensures
        AeroView::first_due(v.fire_nodes(now).node_timers, now, 0) is None,
    decreases v.node_timers.len(),
{
    match AeroView::first_due(v.node_timers, now, 0) {
        None => {},
        Some(i) => {
            let t = v.node_timers[i];
            let removed = AeroView { node_timers: v.node_timers.remove(i), ..v };
            let next = removed.set_node(t.index, true, now);
            crate::mutation::lemma_first_due(v.node_timers, now, 0);
            lemma_keep(removed.node_timers, other_than(t.index));
            assert(next.node_timers.len() < v.node_timers.len());
            lemma_fire_nodes_settles(next, now);
        },
    }
}

/// Once the block timers that are due have fired, none is due, and the node
/// timers are as they were.
pub proof fn lemma_fire_blocks_settles(v: AeroView, now: u64)
    ensures
        AeroView::first_due(v.fire_blocks(now).block_timers, now, 0) is None,
        v.fire_blocks(now).node_timers == v.node_timers,
    decreases v.block_timers.len(),
{
    match AeroView::first_due(v.block_timers, now, 0) {
        None => {},
        Some(i) => {
            let t = v.block_timers[i];
            let removed = AeroView { block_timers: v.block_timers.remove(i), ..v };
            let next = removed.set_block(t.index, BlockState::Clear, now);
            crate::mutation::lemma_first_due(v.block_timers, now, 0);
            lemma_cascade_frame(
                removed,
                seq![t.index],
                Seq::new(removed.blocks.len(), |i: int| false),
                BlockState::Clear,
                now,
            );
            assert(next.block_timers.len() < v.block_timers.len());
            lemma_fire_blocks_settles(next, now);
        },
    }
}

/// Letting time act twice at the same moment is letting it act once: after
/// the timers that are due have fired, a tick changes nothing.
pub proof fn lemma_tick_idempotent(v: AeroView, now: u64)
    ensures
        v.tick(now).tick(now) == v.tick(now),
{
    let a = v.fire_nodes(now);
    let b = a.fire_blocks(now);
    lemma_fire_nodes_settles(v, now);
    lemma_fire_blocks_settles(a, now);
    assert(b.fire_nodes(now) == b);
    assert(b.fire_blocks(now) == b);
}

/// Firing node timers leaves the configuration alone.
pub proof fn lemma_fire_nodes_keeps_config(v: AeroView, now: u64)
    ensures
        v.fire_nodes(now).config == v.config,
    decreases v.node_timers.len(),
{
    match AeroView::first_due(v.node_timers, now, 0) {
        None => {},
        Some(i) => {
            let t = v.node_timers[i];
            let removed = AeroView { node_timers: v.node_timers.remove(i), ..v };
            let next = removed.set_node(t.index, true, now);
            crate::mutation::lemma_first_due(v.node_timers, now, 0);
            lemma_keep(removed.node_timers, other_than(t.index));
            lemma_fire_nodes_keeps_config(next, now);
        },
    }
}

/// Firing block timers leaves the configuration alone.
pub proof fn lemma_fire_blocks_keeps_config(v: AeroView, now: u64)
    ensures
        v.fire_blocks(now).config == v.config,
    decreases v.block_timers.len(),
{
    match AeroView::first_due(v.block_timers, now, 0) {
        None => {},
        Some(i) => {
            let t = v.block_timers[i];
            let removed = AeroView { block_timers: v.block_timers.remove(i), ..v };
            let next = removed.set_block(t.index, BlockState::Clear, now);
            lemma_cascade_frame(
                removed,
                seq![t.index],
                Seq::new(removed.blocks.len(), |i: int| false),
                BlockState::Clear,
                now,
            );
            crate::mutation::lemma_first_due(v.block_timers, now, 0);
            lemma_fire_blocks_keeps_config(next, now);
        },
    }
}

/// Time leaves the configuration alone.
pub proof fn lemma_tick_keeps_config(v: AeroView, now: u64)
    ensures
        v.tick(now).config == v.config,
{
    lemma_fire_nodes_keeps_config(v, now);
    lemma_fire_blocks_keeps_config(v.fire_nodes(now), now);
}

/// A patch from the server leaves the configuration alone.
pub proof fn lemma_patch_keeps_config(v: AeroView, patch: PatchView)
    ensures
        v.apply_patch(patch).config == v.config,
{
}

/// Once time has acted and what was queued is sent, time acting again at the
/// same moment changes nothing and queues nothing.
pub proof fn lemma_flushed_tick(v: AeroView, now: u64)
    requires
        v.tick(now) == v,
    ensures
        v.flushed().tick(now) == v.flushed(),
{
    lemma_fire_nodes_settles(v, now);
    lemma_fire_blocks_settles(v.fire_nodes(now), now);
    lemma_fire_blocks_settles(v, now);
    let f = v.flushed();
    assert(f.node_timers == v.node_timers);
    assert(f.block_timers == v.block_timers);
    assert(v.fire_nodes(now).node_timers == v.node_timers);
    assert(AeroView::first_due(f.node_timers, now, 0) is None);
    assert(f.fire_nodes(now) == f);
    assert(AeroView::first_due(f.block_timers, now, 0) is None);
}

/// A state that has nothing queued and no timer due is left as it is by a
/// tick followed by flushing.
pub proof fn lemma_quiet_tick(v: AeroView, now: u64)
    requires
        AeroView::first_due(v.node_timers, now, 0) is None,
        AeroView::first_due(v.block_timers, now, 0) is None,
        v.pending_patch == PatchView::empty(),
        v.pending_scenery == Map::<Seq<char>, bool>::empty(),
    ensures
        v.tick(now).flushed() == v,
{
}

/// A wildcard written when nothing was written before reaches every node.
pub proof fn lemma_wildcard_fills_nodes(v: AeroView, cells: Seq<State<bool>>, state: bool, len: int)
    requires
        v.config.ids_distinct(),
        0 <= len <= v.config.nodes.len(),
        cells.len() == v.config.nodes.len(),
    ensures
        ({
            let (c, w) = v.fill_nodes(cells, Map::empty(), state, len);
            &&& c.len() == cells.len()
            &&& forall|i: int|
                0 <= i < len ==> (#[trigger] c[i]).pending == Some(state) && w.contains_key(
                    v.config.nodes[i].id@,
                ) && w[v.config.nodes[i].id@] == state
            &&& forall|i: int| len <= i < cells.len() ==> #[trigger] c[i] == cells[i]
            &&& forall|k: Seq<char>|
                w.contains_key(k) ==> exists|i: int| 0 <= i < len && v.config.nodes[i].id@ == k
        }),
    decreases len,
{
    if len > 0 {
        lemma_wildcard_fills_nodes(v, cells, state, len - 1);
        let (c0, w0) = v.fill_nodes(cells, Map::empty(), state, len - 1);
        let id = v.config.nodes[len - 1].id@;
        if w0.contains_key(id) {
            let i = choose|i: int| 0 <= i < len - 1 && v.config.nodes[i].id@ == id;
            assert(v.config.nodes[i].id@ != v.config.nodes[len - 1].id@);
        }
    }
}

/// A wildcard written when nothing was written before reaches every block.
pub proof fn lemma_wildcard_fills_blocks(
    v: AeroView,
    cells: Seq<State<BlockState>>,
    state: BlockState,
    len: int,
)
    requires
        v.config.ids_distinct(),
        0 <= len <= v.config.blocks.len(),
        cells.len() == v.config.blocks.len(),
    ensures
        ({
            let (c, w) = v.fill_blocks(cells, Map::empty(), state, len);
            &&& c.len() == cells.len()
            &&& forall|i: int|
                0 <= i < len ==> (#[trigger] c[i]).pending == Some(state) && w.contains_key(
                    v.config.blocks[i].id@,
                ) && w[v.config.blocks[i].id@] == crate::mutation::wire_state(v.config, state)
            &&& forall|i: int| len <= i < cells.len() ==> #[trigger] c[i] == cells[i]
            &&& forall|k: Seq<char>|
                w.contains_key(k) ==> exists|i: int| 0 <= i < len && v.config.blocks[i].id@ == k
        }),
    decreases len,
{
    if len > 0 {
        lemma_wildcard_fills_blocks(v, cells, state, len - 1);
        let (c0, w0) = v.fill_blocks(cells, Map::empty(), state, len - 1);
        let id = v.config.blocks[len - 1].id@;
        if w0.contains_key(id) {
            let i = choose|i: int| 0 <= i < len - 1 && v.config.blocks[i].id@ == id;
            assert(v.config.blocks[i].id@ != v.config.blocks[len - 1].id@);
        }
    }
}

/// A patch from the server schedules nothing: every timer left after it was
/// there before.
pub proof fn lemma_patch_adds_no_timer(v: AeroView, patch: PatchView)
    ensures
        forall|i: int|
            0 <= i < v.apply_patch(patch).node_timers.len() ==> v.node_timers.contains(
                #[trigger] v.apply_patch(patch).node_timers[i],
            ),
        forall|i: int|
            0 <= i < v.apply_patch(patch).block_timers.len() ==> v.block_timers.contains(
                #[trigger] v.apply_patch(patch).block_timers[i],
            ),
{
    let a = v.apply_profile(patch.profile);
    let b = a.apply_nodes(patch.nodes);
    let c = b.apply_blocks(patch.blocks);
    lemma_keep(a.node_timers, a.nodes_kept(patch.nodes, a.nodes.len() as int));
    lemma_keep(b.block_timers, b.blocks_kept(patch.blocks, b.blocks.len() as int));
    assert forall|i: int| 0 <= i < c.node_timers.len() implies v.node_timers.contains(
        #[trigger] c.node_timers[i],
    ) by {
        assert(a.node_timers.contains(c.node_timers[i]));
    }
    assert forall|i: int| 0 <= i < c.block_timers.len() implies v.block_timers.contains(
        #[trigger] c.block_timers[i],
    ) by {
        assert(b.block_timers.contains(c.block_timers[i]));
    }
}

/// After a patch from the server no timer is left on a cell that the patch
/// speaks of, whether it confirms what was pending there or changes it.
pub proof fn lemma_patch_cancels_timers(v: AeroView, patch: PatchView)
    requires
        v.wf(),
    ensures
        forall|i: int|
            0 <= i < v.apply_patch(patch).node_timers.len() ==> !patch.nodes.contains_key(
                v.config.nodes[(#[trigger] v.apply_patch(patch).node_timers[i]).index as int].id@,
            ),
        forall|i: int|
            0 <= i < v.apply_patch(patch).block_timers.len() ==> v.block_update(
                patch.blocks,
                (#[trigger] v.apply_patch(patch).block_timers[i]).index as int,
            ) is None,
{
    let a = v.apply_profile(patch.profile);
    let b = a.apply_nodes(patch.nodes);
    let c = b.apply_blocks(patch.blocks);
    lemma_keep(a.node_timers, a.nodes_kept(patch.nodes, a.nodes.len() as int));
    lemma_keep(b.block_timers, b.blocks_kept(patch.blocks, b.blocks.len() as int));
    assert forall|i: int| 0 <= i < c.node_timers.len() implies !patch.nodes.contains_key(
        v.config.nodes[(#[trigger] c.node_timers[i]).index as int].id@,
    ) by {
        let t = c.node_timers[i];
        assert(a.node_timers.contains(t));
        let j = choose|j: int| 0 <= j < a.node_timers.len() && a.node_timers[j] == t;
        assert(a.node_timers[j].index < a.nodes.len());
    }
    assert forall|i: int| 0 <= i < c.block_timers.len() implies v.block_update(
        patch.blocks,
        (#[trigger] c.block_timers[i]).index as int,
    ) is None by {
        let t = c.block_timers[i];
        assert(b.block_timers.contains(t));
        let j = choose|j: int| 0 <= j < b.block_timers.len() && b.block_timers[j] == t;
        assert(b.block_timers[j].index < b.blocks.len());
    }
}

/// When the server confirms the value that the user set on a node, nothing
/// is pending on the node any more, the value is the confirmed one, and no
/// timer is left on the node.
pub proof fn lemma_confirmation_clears_pending(
    v: AeroView,
    node: usize,
    state: bool,
    now: u64,
    patch: PatchView,
)
    requires
        v.wf(),
        node < v.nodes.len(),
        patch.nodes.contains_key(v.config.nodes[node as int].id@),
        patch.nodes[v.config.nodes[node as int].id@] == state,
    ensures
        ({
            let set = v.set_node(node, state, now);
            let after = set.apply_patch(patch);
            &&& after.nodes[node as int] == State { current: state, pending: None::<bool> }
            &&& forall|i: int|
                0 <= i < after.node_timers.len() ==> (#[trigger] after.node_timers[i]).index
                    != node
        }),
{
    let set = v.set_node(node, state, now);
    lemma_set_node_wf(v, node, state, now);
    lemma_patch_cancels_timers(set, patch);
}

/// Setting a node keeps the state sound.
pub proof fn lemma_set_node_wf(v: AeroView, node: usize, state: bool, now: u64)
    requires
        v.wf(),
    ensures
        v.set_node(node, state, now).wf(),
{
    crate::mutation::lemma_keep_in_range(v.node_timers, other_than(node), v.nodes.len() as int);
}

/// Whether the configuration knows what a patch names: its profile, and the
/// nodes of the routes it gives to blocks of the configuration.
pub open spec fn patch_known(v: AeroView, patch: PatchView) -> bool {
    &&& patch.profile matches Some(id) ==> crate::inbound::profile_named(v.config, id) is Some
    &&& forall|b: int|
        0 <= b < v.config.blocks.len() && patch.blocks.contains_key(
            #[trigger] v.config.blocks[b].id@,
        ) ==> crate::mutation::local_state(v.config, patch.blocks[v.config.blocks[b].id@]) is Some
}

/// A patch from the server that arrives twice does what it does once.
pub proof fn lemma_server_patch_idempotent(v: AeroView, patch: PatchView)
    requires
        v.wf(),
    ensures
        v.apply_patch(patch).apply_patch(patch) == v.apply_patch(patch),
{
    lemma_apply_then_apply(v, patch, patch, patch);
}

/// Two patches from the server, one after the other, do to a replica what
/// their merge does: the same profile, the same cells, the same timers.
pub proof fn lemma_client_apply_merge(v: AeroView, a: PatchView, b: PatchView)
    requires
        v.wf(),
        patch_known(v, a),
        patch_known(v, b),
    ensures
        v.apply_patch(a).apply_patch(b) == v.apply_patch(a.merge(b)),
{
    lemma_apply_then_apply(v, a, b, a.merge(b));
}

/// Applying `a` and then `b` is applying `m`, where `m` names what `a` or
/// `b` name, gives each cell what the sequence gives it, and names a
/// profile that leads where the sequence leads.
pub proof fn lemma_apply_then_apply(v: AeroView, a: PatchView, b: PatchView, m: PatchView)
    requires
        v.wf(),
        v.apply_profile(a.profile).apply_profile(b.profile).profile == v.apply_profile(
            m.profile,
        ).profile,
        (a.profile matches Some(id) && crate::inbound::profile_named(v.config, id) is Some) || (
        b.profile matches Some(id) && crate::inbound::profile_named(v.config, id) is Some) <==> (
        m.profile matches Some(id) && crate::inbound::profile_named(v.config, id) is Some),
        forall|i: int|
            0 <= i < v.nodes.len() ==> #[trigger] v.node_update(m.nodes, i) == (
            match v.node_update(b.nodes, i) {
                Some(x) => Some(x),
                None => v.node_update(a.nodes, i),
            }),
        forall|i: int|
            0 <= i < v.blocks.len() ==> #[trigger] v.block_update(m.blocks, i) == (
            match v.block_update(b.blocks, i) {
                Some(x) => Some(x),
                None => v.block_update(a.blocks, i),
            }),
    ensures
        v.apply_patch(a).apply_patch(b) == v.apply_patch(m),
{
    let a1 = v.apply_profile(a.profile);
    let a2 = a1.apply_nodes(a.nodes);
    let a3 = a2.apply_blocks(a.blocks);
    let b1 = a3.apply_profile(b.profile);
    let b2 = b1.apply_nodes(b.nodes);
    let b3 = b2.apply_blocks(b.blocks);
    let m1 = v.apply_profile(m.profile);
    let m2 = m1.apply_nodes(m.nodes);
    let m3 = m2.apply_blocks(m.blocks);
    let n = v.nodes.len() as int;
    let nb = v.blocks.len() as int;
    let switched_m = m.profile matches Some(id) && crate::inbound::profile_named(v.config, id)
        is Some;
    assert(b3.config == v.config && m3.config == v.config);
    assert(b3.profile == m3.profile);
    assert(b3.nodes =~= m3.nodes) by {
        assert forall|i: int| 0 <= i < n implies b3.nodes[i] == m3.nodes[i] by {
            assert(b1.node_update(b.nodes, i) == v.node_update(b.nodes, i));
            assert(a1.node_update(a.nodes, i) == v.node_update(a.nodes, i));
            assert(m1.node_update(m.nodes, i) == v.node_update(m.nodes, i));
        }
    }
    assert(b3.blocks =~= m3.blocks) by {
        assert forall|i: int| 0 <= i < nb implies b3.blocks[i] == m3.blocks[i] by {
            assert(b2.block_update(b.blocks, i) == v.block_update(b.blocks, i));
            assert(a2.block_update(a.blocks, i) == v.block_update(a.blocks, i));
            assert(m2.block_update(m.blocks, i) == v.block_update(m.blocks, i));
        }
    }
    // node timers
    let ka = a1.nodes_kept(a.nodes, n);
    let kb = b1.nodes_kept(b.nodes, n);
    let km = m1.nodes_kept(m.nodes, n);
    assert(b3.node_timers == m3.node_timers) by {
        assert forall|t: Timer| #[trigger] km(t) == (ka(t) && kb(t)) by {
            if t.index < n {
                assert(v.node_update(m.nodes, t.index as int) == (match v.node_update(
                    b.nodes,
                    t.index as int,
                ) {
                    Some(x) => Some(x),
                    None => v.node_update(a.nodes, t.index as int),
                }));
            }
        }
        lemma_keep(a1.node_timers, ka);
        lemma_keep(b1.node_timers, kb);
        lemma_keep(m1.node_timers, km);
        if !switched_m {
            // no profile switched: the timers are kept by both patches in turn
            crate::mutation::lemma_keep_twice(v.node_timers, ka, kb, km);
        } else {
            assert(m3.node_timers =~= Seq::<Timer>::empty());
            assert(b3.node_timers =~= Seq::<Timer>::empty());
        }
    }
    let ja = a2.blocks_kept(a.blocks, nb);
    let jb = b2.blocks_kept(b.blocks, nb);
    let jm = m2.blocks_kept(m.blocks, nb);
    assert(b3.block_timers == m3.block_timers) by {
        assert forall|t: Timer| #[trigger] jm(t) == (ja(t) && jb(t)) by {
            if t.index < nb {
                assert(v.block_update(m.blocks, t.index as int) == (match v.block_update(
                    b.blocks,
                    t.index as int,
                ) {
                    Some(x) => Some(x),
                    None => v.block_update(a.blocks, t.index as int),
                }));
                assert(a2.block_update(a.blocks, t.index as int) == v.block_update(
                    a.blocks,
                    t.index as int,
                ));
                assert(b2.block_update(b.blocks, t.index as int) == v.block_update(
                    b.blocks,
                    t.index as int,
                ));
                assert(m2.block_update(m.blocks, t.index as int) == v.block_update(
                    m.blocks,
                    t.index as int,
                ));
            }
        }
        lemma_keep(a2.block_timers, ja);
        lemma_keep(b2.block_timers, jb);
        lemma_keep(m2.block_timers, jm);
        if !switched_m {
            crate::mutation::lemma_keep_twice(v.block_timers, ja, jb, jm);
        } else {
            assert(m3.block_timers =~= Seq::<Timer>::empty());
            assert(b3.block_timers =~= Seq::<Timer>::empty());
        }
    }
}

/// The node cells `cells` carry as pending what `written` holds for them, and
/// are those of `v` where `written` does not name them.
pub open spec fn nodes_agree(v: AeroView, cells: Seq<State<bool>>, written: Map<Seq<char>, bool>) -> bool {
    &&& cells.len() == v.config.nodes.len()
    &&& forall|i: int|
        0 <= i < cells.len() ==> if written.contains_key(v.config.nodes[i].id@) {
            (#[trigger] cells[i]).pending == Some(written[v.config.nodes[i].id@])
        } else {
            cells[i] == v.nodes[i]
        }
}

/// As `nodes_agree`, for blocks: `written` holds the pending state by
/// identifiers.
pub open spec fn blocks_agree(
    v: AeroView,
    cells: Seq<State<BlockState>>,
    written: Map<Seq<char>, BlockStateView>,
) -> bool {
    &&& cells.len() == v.config.blocks.len()
    &&& forall|i: int|
        0 <= i < cells.len() ==> if written.contains_key(v.config.blocks[i].id@) {
            (#[trigger] cells[i]).pending matches Some(s) && v.config.state_ok(s)
                && written[v.config.blocks[i].id@] == wire_state(v.config, s)
        } else {
            cells[i] == v.blocks[i]
        }
}

/// Filling keeps cells and written values in agreement.
pub proof fn lemma_fill_nodes_agree(
    v: AeroView,
    cells: Seq<State<bool>>,
    written: Map<Seq<char>, bool>,
    state: bool,
    len: int,
)
    requires
        v.wf(),
        nodes_agree(v, cells, written),
        0 <= len <= v.config.nodes.len(),
    ensures
        nodes_agree(
            v,
            v.fill_nodes(cells, written, state, len).0,
            v.fill_nodes(cells, written, state, len).1,
        ),
    decreases len,
{
    if len > 0 {
        lemma_fill_nodes_agree(v, cells, written, state, len - 1);
        let (c0, w0) = v.fill_nodes(cells, written, state, len - 1);
        let (c1, w1) = v.fill_nodes(cells, written, state, len);
        let id = v.config.nodes[len - 1].id@;
        if !w0.contains_key(id) {
            assert forall|i: int| 0 <= i < c1.len() implies if w1.contains_key(
                v.config.nodes[i].id@,
            ) {
                (#[trigger] c1[i]).pending == Some(w1[v.config.nodes[i].id@])
            } else {
                c1[i] == v.nodes[i]
            } by {
                if i != len - 1 {
                    lemma_node_named(v.config, i);
                    lemma_node_named(v.config, len - 1);
                    assert(v.config.nodes[i].id@ != id);
                    assert(c1[i] == c0[i]);
                }
            }
        }
    }
}

/// Writing the node entries of a preset keeps cells and written values in
/// agreement.
pub proof fn lemma_preset_nodes_agree(v: AeroView, entries: Seq<(usize, bool)>, len: int)
    requires
        v.wf(),
        0 <= len <= entries.len(),
        forall|i: int|
            0 <= i < entries.len() ==> is_wildcard(#[trigger] entries[i].0) || entries[i].0
                < v.config.nodes.len(),
    ensures
        nodes_agree(v, v.preset_nodes(entries, len).0, v.preset_nodes(entries, len).1),
    decreases len,
{
    if len > 0 {
        lemma_preset_nodes_agree(v, entries, len - 1);
        let (c0, w0) = v.preset_nodes(entries, len - 1);
        let (c1, w1) = v.preset_nodes(entries, len);
        let (node, state) = entries[len - 1];
        if is_wildcard(node) {
            lemma_fill_nodes_agree(v, c0, w0, state, v.nodes.len() as int);
        } else {
            assert(entries[len - 1].0 < v.config.nodes.len());
            let id = v.config.nodes[node as int].id@;
            assert forall|i: int| 0 <= i < c1.len() implies if w1.contains_key(
                v.config.nodes[i].id@,
            ) {
                (#[trigger] c1[i]).pending == Some(w1[v.config.nodes[i].id@])
            } else {
                c1[i] == v.nodes[i]
            } by {
                if i != node {
                    lemma_node_named(v.config, i);
                    lemma_node_named(v.config, node as int);
                    assert(v.config.nodes[i].id@ != id);
                    assert(c1[i] == c0[i]);
                }
            }
        }
    }
}

/// Two different blocks have different identifiers.
pub proof fn lemma_block_ids_differ(v: AeroView, i: int, j: int)
    requires
        v.wf(),
        0 <= i < v.config.blocks.len(),
        0 <= j < v.config.blocks.len(),
        i != j,
    ensures
        v.config.blocks[i].id@ != v.config.blocks[j].id@,
{
    if i < j {
        assert(v.config.blocks[i].id@ != v.config.blocks[j].id@);
    } else {
        assert(v.config.blocks[j].id@ != v.config.blocks[i].id@);
    }
}

/// Filling keeps block cells and written values in agreement.
pub proof fn lemma_fill_blocks_agree(
    v: AeroView,
    cells: Seq<State<BlockState>>,
    written: Map<Seq<char>, BlockStateView>,
    state: BlockState,
    len: int,
)
    requires
        v.wf(),
        v.config.state_ok(state),
        blocks_agree(v, cells, written),
        0 <= len <= v.config.blocks.len(),
    ensures
        blocks_agree(
            v,
            v.fill_blocks(cells, written, state, len).0,
            v.fill_blocks(cells, written, state, len).1,
        ),
    decreases len,
{
    if len > 0 {
        lemma_fill_blocks_agree(v, cells, written, state, len - 1);
        let (c0, w0) = v.fill_blocks(cells, written, state, len - 1);
        let (c1, w1) = v.fill_blocks(cells, written, state, len);
        let id = v.config.blocks[len - 1].id@;
        if !w0.contains_key(id) {
            assert forall|i: int| 0 <= i < c1.len() implies if w1.contains_key(
                v.config.blocks[i].id@,
            ) {
                (#[trigger] c1[i]).pending matches Some(s) && v.config.state_ok(s)
                    && w1[v.config.blocks[i].id@] == wire_state(v.config, s)
            } else {
                c1[i] == v.blocks[i]
            } by {
                if i != len - 1 {
                    lemma_block_ids_differ(v, i, len - 1);
                    assert(c1[i] == c0[i]);
                }
            }
        }
    }
}

/// Writing the block entries of a preset keeps cells and written values in
/// agreement.
pub proof fn lemma_preset_blocks_agree(v: AeroView, entries: Seq<(usize, BlockState)>, len: int)
    requires
        v.wf(),
        0 <= len <= entries.len(),
        forall|i: int|
            0 <= i < entries.len() ==> (is_wildcard(#[trigger] entries[i].0) || entries[i].0
                < v.config.blocks.len()) && v.config.state_ok(entries[i].1),
    ensures
        blocks_agree(v, v.preset_blocks(entries, len).0, v.preset_blocks(entries, len).1),
    decreases len,
{
    if len > 0 {
        lemma_preset_blocks_agree(v, entries, len - 1);
        let (c0, w0) = v.preset_blocks(entries, len - 1);
        let (c1, w1) = v.preset_blocks(entries, len);
        let (block, state) = entries[len - 1];
        assert((is_wildcard(entries[len - 1].0) || entries[len - 1].0 < v.config.blocks.len())
            && v.config.state_ok(entries[len - 1].1));
        if is_wildcard(block) {
            lemma_fill_blocks_agree(v, c0, w0, state, v.blocks.len() as int);
        } else {
            assert forall|i: int| 0 <= i < c1.len() implies if w1.contains_key(
                v.config.blocks[i].id@,
            ) {
                (#[trigger] c1[i]).pending matches Some(s) && v.config.state_ok(s)
                    && w1[v.config.blocks[i].id@] == wire_state(v.config, s)
            } else {
                c1[i] == v.blocks[i]
            } by {
                if i != block {
                    lemma_block_ids_differ(v, i, block as int);
                    assert(c1[i] == c0[i]);
                }
            }
        }
    }
}

/// When the server echoes the patch that a preset produced, the profile and
/// every value in effect stay what the preset made them, nothing is pending
/// any more on the cells that the preset wrote, and the other cells are
/// untouched. A profile that is queued for sending is echoed too: it must be
/// the active one.
pub proof fn lemma_preset_echo(v: AeroView, i: usize)
    requires
        v.wf(),
        i < v.config.profiles[v.profile as int].presets.len(),
        v.pending_patch.profile matches Some(id) ==> crate::inbound::profile_named(v.config, id)
            == Some(v.profile),
    ensures
        ({
            let applied = v.apply_preset(i);
            let after = applied.apply_patch(applied.pending_patch);
            &&& after.profile == applied.profile
            &&& after.nodes.len() == applied.nodes.len()
            &&& after.blocks.len() == applied.blocks.len()
            &&& forall|n: int|
                0 <= n < after.nodes.len() ==> (#[trigger] after.nodes[n]).effective()
                    == applied.nodes[n].effective()
            &&& forall|b: int|
                0 <= b < after.blocks.len() ==> (#[trigger] after.blocks[b]).effective()
                    == applied.blocks[b].effective()
            &&& forall|n: int|
                0 <= n < after.nodes.len() ==> (#[trigger] after.nodes[n]).pending is None
                    || after.nodes[n] == v.nodes[n]
            &&& forall|b: int|
                0 <= b < after.blocks.len() ==> (#[trigger] after.blocks[b]).pending is None
                    || after.blocks[b] == v.blocks[b]
            &&& same_in_effect(after, applied)
        }),
{
    let preset = v.config.profiles[v.profile as int].presets[i as int];
    assert(v.config.profile_ok(v.config.profiles[v.profile as int]));
    assert(v.config.preset_ok(preset));
    lemma_preset_nodes_agree(v, preset.nodes@, preset.nodes.len() as int);
    lemma_preset_blocks_agree(v, preset.blocks@, preset.blocks.len() as int);
    let applied = v.apply_preset(i);
    let echo = applied.pending_patch;
    let first = applied.apply_profile(echo.profile);
    assert(first.profile == applied.profile);
    assert(first.nodes == applied.nodes && first.blocks == applied.blocks);
    let after = applied.apply_patch(echo);
    assert forall|b: int| 0 <= b < after.blocks.len() implies (#[trigger] after.blocks[b]).effective()
        == applied.blocks[b].effective() && (after.blocks[b].pending is None || after.blocks[b]
        == v.blocks[b]) by {
        let id = v.config.blocks[b].id@;
        if echo.blocks.contains_key(id) {
            let s = applied.blocks[b].pending.unwrap();
            lemma_wire_round_trip(v.config, s);
        }
    }
}

/// A patch from the server wins where it speaks and leaves the rest alone:
/// a node that it names takes its value with nothing pending, every other
/// node keeps its cell; and so for the blocks whose state it gives.
pub proof fn lemma_server_patch_wins(v: AeroView, patch: PatchView)
    requires
        v.wf(),
    ensures
        ({
            let after = v.apply_patch(patch);
            &&& after.nodes.len() == v.nodes.len()
            &&& after.blocks.len() == v.blocks.len()
            &&& forall|i: int|
                0 <= i < v.nodes.len() ==> #[trigger] after.nodes[i] == (
                if patch.nodes.contains_key(v.config.nodes[i].id@) {
                    State { current: patch.nodes[v.config.nodes[i].id@], pending: None }
                } else {
                    v.nodes[i]
                })
            &&& forall|b: int|
                0 <= b < v.blocks.len() ==> #[trigger] after.blocks[b] == (
                match v.block_update(patch.blocks, b) {
                    Some(s) => State { current: s, pending: None },
                    None => v.blocks[b],
                })
        }),
{
}

/// Where neither end of a route has children, the only candidate is the
/// route itself, unless the block forbids it.
pub proof fn lemma_candidates_without_children(v: AeroView, block: usize, a: usize, b: usize)
    requires
        block < v.blocks.len(),
        v.blocks[block as int].effective() == BlockState::Route((a, b)),
        children_of(v.config, a).len() == 0,
        children_of(v.config, b).len() == 0,
    ensures
        v.route_candidates(block) == (if crate::config::lists_pair(
            v.config.blocks[block as int].non_routes@,
            a,
            b,
        ) {
            Seq::<(usize, usize)>::empty()
        } else {
            seq![(a, b)]
        }),
{
    let nr = v.config.blocks[block as int].non_routes@;
    let ac = v.family(a);
    let bc = v.family(b);
    assert(ac =~= seq![a]);
    assert(bc =~= seq![b]);
    assert(crate::model::cand_row(nr, a, bc, 0) =~= Seq::<(usize, usize)>::empty());
    assert(crate::model::cand_rows(nr, ac, bc, 0) =~= Seq::<(usize, usize)>::empty());
    let row = crate::model::cand_row(nr, a, bc, 1);
    assert(crate::model::cand_rows(nr, ac, bc, 1) =~= row);
    if !crate::config::lists_pair(nr, a, b) {
        assert(row =~= seq![(a, b)]);
    }
}

/// Two states of one configuration under one profile whose cells have the
/// same values in effect agree on every derived value.
pub open spec fn same_in_effect(a: AeroView, b: AeroView) -> bool {
    &&& a.config == b.config
    &&& a.profile == b.profile
    &&& a.nodes.len() == b.nodes.len()
    &&& a.blocks.len() == b.blocks.len()
    &&& forall|n: int|
        0 <= n < a.nodes.len() ==> (#[trigger] a.nodes[n]).effective() == b.nodes[n].effective()
    &&& forall|k: int|
        0 <= k < a.blocks.len() ==> (#[trigger] a.blocks[k]).effective() == b.blocks[k].effective()
}

/// What is lit depends only on the values in effect: states that agree on
/// them light the same nodes.
pub proof fn lemma_node_lit_by_effect(a: AeroView, b: AeroView, n: usize)
    requires
        same_in_effect(a, b),
        n < a.nodes.len(),
    ensures
        a.node_lit(n) == b.node_lit(n),
{
    let s = a.node_blocks(n);
    if 0 <= s.0 < a.blocks.len() {
        assert(a.blocks[s.0].effective() == b.blocks[s.0].effective());
    }
    if 0 <= s.1 < a.blocks.len() {
        assert(a.blocks[s.1].effective() == b.blocks[s.1].effective());
    }
    assert(a.nodes[n as int].effective() == b.nodes[n as int].effective());
}

/// States that agree on the values in effect give a block the same
/// candidates.
pub proof fn lemma_candidates_by_effect(a: AeroView, b: AeroView, block: usize)
    requires
        same_in_effect(a, b),
        block < a.blocks.len(),
    ensures
        a.route_candidates(block) == b.route_candidates(block),
{
    assert(a.blocks[block as int].effective() == b.blocks[block as int].effective());
    match a.blocks[block as int].effective() {
        BlockState::Route((ap, bp)) => {
            assert(a.family(ap) == b.family(ap));
            assert(a.family(bp) == b.family(bp));
        },
        _ => {},
    }
}

/// States that agree on the values in effect light the same edges.
pub proof fn lemma_edge_lit_by_effect(a: AeroView, b: AeroView, e: usize)
    requires
        a.wf(),
        same_in_effect(a, b),
        e < a.config.edges.len(),
    ensures
        a.edge_lit(e) == b.edge_lit(e),
{
    let p = a.config.profiles[a.profile as int];
    assert(a.config.profile_ok(p));
    assert(a.config.edge_condition_ok(p.edges[e as int]));
    match p.edges[e as int] {
        crate::config::EdgeCondition::Fixed(_) => {},
        crate::config::EdgeCondition::Direct(node) => {
            lemma_node_lit_by_effect(a, b, node);
        },
        crate::config::EdgeCondition::Router { block, routes } => {
            assert(a.blocks[block as int].effective() == b.blocks[block as int].effective());
            match a.blocks[block as int].effective() {
                BlockState::Route((ap, bp)) => {
                    let cell = a.blocks[block as int];
                    assert(a.config.state_ok(cell.effective()));
                    lemma_candidates_by_effect(a, b, block);
                    crate::topology::lemma_slots_in_range(a.config, ap);
                    crate::topology::lemma_slots_in_range(a.config, bp);
                    let ja = a.adjacent(block, ap);
                    let jb = a.adjacent(block, bp);
                    assert(a.blocks[ja].effective() == b.blocks[ja].effective());
                    assert(a.blocks[jb].effective() == b.blocks[jb].effective());
                    lemma_candidates_by_effect(a, b, ja as usize);
                    lemma_candidates_by_effect(a, b, jb as usize);
                    assert(a.family(ap) == b.family(ap));
                },
                _ => {},
            }
        },
    }
}

} // verus!
