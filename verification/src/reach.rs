//! Which blocks a block state spreads to: those that are reached from the
//! block through nodes that are fixed dark.

use crate::config::{Aerodrome, BlockState, NodeCondition};
use crate::model::{AeroView, State};
use crate::mutation::{beyond, count_false, lemma_count_false_set};
use crate::topology::{lemma_member_has_border, lemma_slots_in_range, slots};
use vstd::prelude::*;

verus! {

/// Whether block `w` lies beyond the node `node`: the node is fixed dark
/// and `w` is one of the blocks it borders.
pub open spec fn through(c: Aerodrome, profile: usize, node: usize, w: usize) -> bool {
    c.profiles[profile as int].nodes[node as int] == NodeCondition::Fixed(false) && (slots(
        c.borders(node),
    ).0 as usize == w || slots(c.borders(node)).1 as usize == w)
}

/// Whether block `w` lies beyond one of the first `len` boundary nodes of
/// block `b`.
pub open spec fn passes_upto(c: Aerodrome, profile: usize, b: usize, w: usize, len: int) -> bool {
    exists|k: int| 0 <= k < len && through(c, profile, #[trigger] c.blocks[b as int].nodes[k], w)
}

/// Whether block `w` continues block `b`: it lies beyond a fixed dark node
/// on the boundary of `b`.
pub open spec fn passes(c: Aerodrome, profile: usize, b: usize, w: usize) -> bool {
    passes_upto(c, profile, b, w, c.blocks[b as int].nodes.len() as int)
}

/// Whether `path` is a way over blocks, each continued by the next.
pub open spec fn is_path(c: Aerodrome, profile: usize, path: Seq<usize>) -> bool {
    &&& path.len() > 0
    &&& forall|i: int|
        0 <= i < path.len() - 1 ==> (#[trigger] path[i]) < c.blocks.len() && passes(
            c,
            profile,
            path[i],
            path[i + 1],
        )
}

/// Whether `path` leads from block `from` to block `to`.
pub open spec fn leads(c: Aerodrome, profile: usize, path: Seq<usize>, from: usize, to: usize) -> bool {
    is_path(c, profile, path) && path[0] == from && path.last() == to
}

/// Whether block `to` is reached from block `from` over blocks that each
/// continue the one before.
pub open spec fn reachable(c: Aerodrome, profile: usize, from: usize, to: usize) -> bool {
    exists|path: Seq<usize>| #[trigger] leads(c, profile, path, from, to)
}

/// A step before a path gives a path.
pub proof fn lemma_reach_prepend(c: Aerodrome, profile: usize, b: usize, s: usize, x: usize)
    requires
        b < c.blocks.len(),
        passes(c, profile, b, s),
        reachable(c, profile, s, x),
    ensures
        reachable(c, profile, b, x),
{
    let path = choose|path: Seq<usize>| #[trigger] leads(c, profile, path, s, x);
    let longer = seq![b] + path;
    assert forall|i: int| 0 <= i < longer.len() - 1 implies (#[trigger] longer[i])
        < c.blocks.len() && passes(c, profile, longer[i], longer[i + 1]) by {
        if i == 0 {
            assert(longer[0] == b && longer[1] == path[0]);
        } else {
            assert(longer[i] == path[i - 1] && longer[i + 1] == path[i]);
            assert(path[i - 1] < c.blocks.len());
        }
    }
    assert(longer.len() > 0);
    assert(longer[0] == b);
    assert(longer.last() == path[path.len() - 1]);
    assert(is_path(c, profile, longer));
    assert(leads(c, profile, longer, b, x));
}

/// What `beyond` lists are the blocks that lie beyond the boundary nodes.
pub proof fn lemma_beyond(c: Aerodrome, profile: usize, b: usize, len: int, w: usize)
    requires
        0 <= len <= c.blocks[b as int].nodes.len(),
    ensures
        beyond(c, profile, b, len).contains(w) <==> passes_upto(c, profile, b, w, len),
    decreases len,
{
    if len > 0 {
        lemma_beyond(c, profile, b, len - 1, w);
        let node = c.blocks[b as int].nodes[len - 1];
        let rest = beyond(c, profile, b, len - 1);
        let all = beyond(c, profile, b, len);
        let s0 = slots(c.borders(node)).0 as usize;
        let s1 = slots(c.borders(node)).1 as usize;
        let dark = c.profiles[profile as int].nodes[node as int] == NodeCondition::Fixed(false);
        if all.contains(w) {
            let i = choose|i: int| 0 <= i < all.len() && all[i] == w;
            if dark {
                if i < rest.len() {
                    assert(rest[i] == w);
                } else {
                    assert(through(c, profile, c.blocks[b as int].nodes[len - 1], w));
                }
            }
            if rest.contains(w) {
                let k = choose|k: int|
                    0 <= k < len - 1 && through(c, profile, #[trigger] c.blocks[b as int].nodes[k], w);
                assert(through(c, profile, c.blocks[b as int].nodes[k], w));
            }
        }
        if passes_upto(c, profile, b, w, len) {
            let k = choose|k: int|
                0 <= k < len && through(c, profile, #[trigger] c.blocks[b as int].nodes[k], w);
            if k < len - 1 {
                assert(passes_upto(c, profile, b, w, len - 1));
                let i = choose|i: int| 0 <= i < rest.len() && rest[i] == w;
                assert(all[i] == w);
            } else {
                assert(dark);
                assert(all == rest.push(s0).push(s1));
                if s0 == w {
                    assert(all[rest.len() as int] == w);
                } else {
                    assert(all[rest.len() as int + 1] == w);
                }
            }
        }
    }
}

/// A block that continues another is a block of the configuration.
pub proof fn lemma_passes_in_range(c: Aerodrome, profile: usize, b: usize, w: usize)
    requires
        c.wf(),
        b < c.blocks.len(),
        passes(c, profile, b, w),
    ensures
        w < c.blocks.len(),
{
    let k = choose|k: int|
        0 <= k < c.blocks[b as int].nodes.len() && through(
            c,
            profile,
            #[trigger] c.blocks[b as int].nodes[k],
            w,
        );
    let node = c.blocks[b as int].nodes[k];
    lemma_member_has_border(c, b as int, k);
    lemma_slots_in_range(c, node);
}

/// The blocks that a spreading state has come to once the stack is worked
/// off, starting from those in `visited`.
pub open spec fn swept(c: Aerodrome, profile: usize, stack: Seq<usize>, visited: Seq<bool>) -> Seq<
    bool,
>
    decreases count_false(visited), stack.len(),
{
    if stack.len() == 0 {
        visited
    } else {
        let block = stack.last();
        let rest = stack.drop_last();
        if block >= visited.len() || visited[block as int] {
            swept(c, profile, rest, visited)
        } else {
            proof {
                lemma_count_false_set(visited, block as int);
            }
            swept(
                c,
                profile,
                rest + beyond(c, profile, block, c.blocks[block as int].nodes.len() as int),
                visited.update(block as int, true),
            )
        }
    }
}

/// A spreading state sets exactly the blocks that it newly comes to.
pub proof fn lemma_cascade_cells(
    v: AeroView,
    stack: Seq<usize>,
    visited: Seq<bool>,
    state: BlockState,
    now: u64,
)
    requires
        visited.len() == v.blocks.len(),
    ensures
        ({
            let r = v.cascade(stack, visited, state, now);
            let s = swept(v.config, v.profile, stack, visited);
            &&& r.blocks.len() == v.blocks.len()
            &&& s.len() == visited.len()
            &&& forall|x: int|
                0 <= x < v.blocks.len() ==> #[trigger] r.blocks[x] == (if s[x] && !visited[x] {
                    State { pending: Some(state), ..v.blocks[x] }
                } else {
                    v.blocks[x]
                })
        }),
    decreases count_false(visited), stack.len(),
{
    if stack.len() > 0 {
        let block = stack.last();
        let rest = stack.drop_last();
        if block >= visited.len() || visited[block as int] {
            lemma_cascade_cells(v, rest, visited, state, now);
        } else {
            lemma_count_false_set(visited, block as int);
            let next = v.set_block_state(block, state, now);
            let stack2 = rest + beyond(
                v.config,
                v.profile,
                block,
                v.config.blocks[block as int].nodes.len() as int,
            );
            let visited2 = visited.update(block as int, true);
            lemma_cascade_cells(next, stack2, visited2, state, now);
            lemma_swept(v.config, v.profile, stack2, visited2);
            let r = v.cascade(stack, visited, state, now);
            let s = swept(v.config, v.profile, stack, visited);
            assert forall|x: int| 0 <= x < v.blocks.len() implies #[trigger] r.blocks[x] == (if s[x]
                && !visited[x] {
                State { pending: Some(state), ..v.blocks[x] }
            } else {
                v.blocks[x]
            }) by {
                if x == block {
                    assert(visited2[x]);
                    assert(s[x]);
                } else {
                    assert(next.blocks[x] == v.blocks[x]);
                    assert(visited2[x] == visited[x]);
                }
            }
        }
    }
}

/// What was visited stays swept, and the length stays.
pub proof fn lemma_swept(c: Aerodrome, profile: usize, stack: Seq<usize>, visited: Seq<bool>)
    ensures
        swept(c, profile, stack, visited).len() == visited.len(),
        forall|x: int|
            0 <= x < visited.len() && visited[x] ==> #[trigger] swept(c, profile, stack, visited)[x],
        forall|i: int|
            0 <= i < stack.len() && stack[i] < visited.len() ==> swept(c, profile, stack, visited)[(
            #[trigger] stack[i]) as int],
    decreases count_false(visited), stack.len(),
{
    if stack.len() > 0 {
        let block = stack.last();
        let rest = stack.drop_last();
        let s = swept(c, profile, stack, visited);
        if block >= visited.len() || visited[block as int] {
            lemma_swept(c, profile, rest, visited);
            assert forall|i: int| 0 <= i < stack.len() && stack[i] < visited.len() implies s[(
            #[trigger] stack[i]) as int] by {
                if i < rest.len() {
                    assert(rest[i] == stack[i]);
                }
            }
        } else {
            lemma_count_false_set(visited, block as int);
            let more = beyond(c, profile, block, c.blocks[block as int].nodes.len() as int);
            let stack2 = rest + more;
            let visited2 = visited.update(block as int, true);
            lemma_swept(c, profile, stack2, visited2);
            assert forall|x: int| 0 <= x < visited.len() && visited[x] implies #[trigger] s[x] by {
                assert(visited2[x]);
            }
            assert forall|i: int| 0 <= i < stack.len() && stack[i] < visited.len() implies s[(
            #[trigger] stack[i]) as int] by {
                if i < rest.len() {
                    assert(stack2[i] == stack[i]);
                } else {
                    assert(visited2[block as int]);
                }
            }
        }
    }
}

/// Every block that is newly swept has all the blocks that continue it
/// swept, and is reached from a block of the stack.
pub proof fn lemma_swept_closed(c: Aerodrome, profile: usize, stack: Seq<usize>, visited: Seq<bool>)
    requires
        c.wf(),
        visited.len() == c.blocks.len(),
    ensures
        forall|x: usize, w: usize|
            x < visited.len() && swept(c, profile, stack, visited)[x as int] && !visited[x as int]
                && #[trigger] passes(c, profile, x, w) ==> swept(c, profile, stack, visited)[w as int],
        forall|x: usize|
            x < visited.len() && #[trigger] swept(c, profile, stack, visited)[x as int]
                && !visited[x as int] ==> exists|i: int|
                0 <= i < stack.len() && reachable(c, profile, #[trigger] stack[i], x),
    decreases count_false(visited), stack.len(),
{
    if stack.len() > 0 {
        let block = stack.last();
        let rest = stack.drop_last();
        let s = swept(c, profile, stack, visited);
        if block >= visited.len() || visited[block as int] {
            lemma_swept_closed(c, profile, rest, visited);
            assert(s == swept(c, profile, rest, visited));
            assert forall|x: usize|
                x < visited.len() && #[trigger] s[x as int] && !visited[x as int] implies exists|
                i: int,
            | 0 <= i < stack.len() && reachable(c, profile, #[trigger] stack[i], x) by {
                let i = choose|i: int|
                    0 <= i < rest.len() && reachable(c, profile, #[trigger] rest[i], x);
                assert(stack[i] == rest[i]);
            }
        } else {
            lemma_count_false_set(visited, block as int);
            let more = beyond(c, profile, block, c.blocks[block as int].nodes.len() as int);
            let stack2 = rest + more;
            let visited2 = visited.update(block as int, true);
            lemma_swept_closed(c, profile, stack2, visited2);
            lemma_swept(c, profile, stack2, visited2);
            assert(s == swept(c, profile, stack2, visited2));
            assert forall|x: usize, w: usize|
                x < visited.len() && s[x as int] && !visited[x as int] && #[trigger] passes(
                    c,
                    profile,
                    x,
                    w,
                ) implies s[w as int] by {
                if x == block {
                    lemma_passes_in_range(c, profile, block, w);
                    lemma_beyond(c, profile, block, c.blocks[block as int].nodes.len() as int, w);
                    let i = choose|i: int| 0 <= i < more.len() && more[i] == w;
                    assert(stack2[rest.len() + i] == w);
                }
            }
            assert forall|x: usize|
                x < visited.len() && #[trigger] s[x as int] && !visited[x as int] implies exists|
                i: int,
            | 0 <= i < stack.len() && reachable(c, profile, #[trigger] stack[i], x) by {
                if x == block {
                    assert(leads(c, profile, seq![block], block, block));
                    assert(stack[stack.len() - 1] == block);
                } else {
                    assert(!visited2[x as int]);
                    let i = choose|i: int|
                        0 <= i < stack2.len() && reachable(c, profile, #[trigger] stack2[i], x);
                    if i < rest.len() {
                        assert(stack[i] == stack2[i]);
                    } else {
                        let start = more[i - rest.len()];
                        assert(stack2[i] == start);
                        assert(more.contains(start));
                        lemma_beyond(
                            c,
                            profile,
                            block,
                            c.blocks[block as int].nodes.len() as int,
                            start,
                        );
                        lemma_reach_prepend(c, profile, block, start, x);
                        assert(reachable(c, profile, block, x));
                        assert(stack[stack.len() - 1] == block);
                    }
                }
            }
        }
    }
}

/// No block of `n` visited.
pub open spec fn unvisited(n: nat) -> Seq<bool> {
    Seq::new(n, |i: int| false)
}

/// A sweep from one block with nothing visited comes to the end of every
/// path that starts at the block.
pub proof fn lemma_sweep_complete(c: Aerodrome, profile: usize, block: usize, path: Seq<usize>)
    requires
        c.wf(),
        block < c.blocks.len(),
        is_path(c, profile, path),
        path[0] == block,
    ensures
        path.last() < c.blocks.len(),
        swept(c, profile, seq![block], unvisited(c.blocks.len() as nat))[path.last() as int],
    decreases path.len(),
{
    let stack = seq![block];
    let visited = unvisited(c.blocks.len() as nat);
    lemma_swept(c, profile, stack, visited);
    if path.len() == 1 {
        assert(stack[0] == block);
    } else {
        let head = path.drop_last();
        let mid = path[path.len() - 2];
        assert forall|i: int| 0 <= i < head.len() - 1 implies (#[trigger] head[i])
            < c.blocks.len() && passes(c, profile, head[i], head[i + 1]) by {
            assert(head[i] == path[i] && head[i + 1] == path[i + 1]);
            assert(path[i] < c.blocks.len());
        }
        assert(head[0] == path[0]);
        assert(is_path(c, profile, head));
        lemma_sweep_complete(c, profile, block, head);
        assert(head.last() == mid);
        assert(path[path.len() - 2] < c.blocks.len());
        assert(passes(c, profile, mid, path.last()));
        lemma_swept_closed(c, profile, stack, visited);
        lemma_passes_in_range(c, profile, mid, path.last());
        assert(!visited[mid as int]);
    }
}

/// Setting a block sets exactly the blocks that are reached from it through
/// fixed dark nodes: each of them has the state pending, every other block
/// is as it was.
pub proof fn lemma_set_block_reaches(v: AeroView, block: usize, state: BlockState, now: u64)
    requires
        v.wf(),
        block < v.blocks.len(),
        v.config.state_ok(state),
    ensures
        ({
            let r = v.set_block(block, state, now);
            &&& r.blocks.len() == v.blocks.len()
            &&& forall|x: int|
                0 <= x < v.blocks.len() ==> #[trigger] r.blocks[x] == (if reachable(
                    v.config,
                    v.profile,
                    block,
                    x as usize,
                ) {
                    State { pending: Some(state), ..v.blocks[x] }
                } else {
                    v.blocks[x]
                })
        }),
{
    let c = v.config;
    let stack = seq![block];
    let visited = unvisited(v.blocks.len());
    assert(visited =~= Seq::new(v.blocks.len(), |i: int| false));
    let s = swept(c, v.profile, stack, visited);
    lemma_cascade_cells(v, stack, visited, state, now);
    lemma_swept_closed(c, v.profile, stack, visited);
    let r = v.set_block(block, state, now);
    assert forall|x: int| 0 <= x < v.blocks.len() implies #[trigger] r.blocks[x] == (if reachable(
        c,
        v.profile,
        block,
        x as usize,
    ) {
        State { pending: Some(state), ..v.blocks[x] }
    } else {
        v.blocks[x]
    }) by {
        let xu = x as usize;
        if reachable(c, v.profile, block, xu) {
            let path = choose|path: Seq<usize>| #[trigger] leads(c, v.profile, path, block, xu);
            lemma_sweep_complete(c, v.profile, block, path);
        }
        if s[x] {
            assert(s[xu as int] && !visited[xu as int]);
            let i = choose|i: int|
                0 <= i < stack.len() && reachable(c, v.profile, #[trigger] stack[i], xu);
            assert(stack[i] == block);
        }
    }
}

} // verus!
