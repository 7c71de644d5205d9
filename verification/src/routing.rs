//! Route assignment: the search for a chain of blocks that connects two
//! router nodes.
//!
//! Every node has two sides, one per block it borders. The search walks
//! states `(node, side)`: from a state it follows the connections of that
//! side, and enters each neighbour on the side facing away from the shared
//! block. Nodes fixed lit are walls. Nodes fixed dark are passed through
//! without adding to the distance, and explored first.

use crate::config::{Aerodrome, BlockState, NodeCondition};
use crate::topology::{
    lemma_conns_in_range, lemma_borders_in_range, side_conns, slots, Tables,
};
use std::collections::VecDeque;
use vstd::prelude::*;

verus! {

/// One side of a node: `false` for its first border, `true` for its second.
pub type Side = (usize, bool);

/// The component of `p` that belongs to side `dir`.
pub open spec fn pick<T>(p: (T, T), dir: bool) -> T {
    if dir {
        p.1
    } else {
        p.0
    }
}

/// The pair `p` with the component of side `dir` replaced.
pub open spec fn put<T>(p: (T, T), dir: bool, x: T) -> (T, T) {
    if dir {
        (p.0, x)
    } else {
        (x, p.1)
    }
}

/// How many sides are not marked in `seen`.
pub open spec fn unseen(seen: Seq<(bool, bool)>) -> nat
    decreases seen.len(),
{
    if seen.len() == 0 {
        0
    } else {
        unseen(seen.drop_last()) + (if seen.last().0 {
            0nat
        } else {
            1nat
        }) + (if seen.last().1 {
            0nat
        } else {
            1nat
        })
    }
}

/// Marking an unmarked side leaves one unmarked side fewer.
pub proof fn lemma_unseen_mark(seen: Seq<(bool, bool)>, node: int, dir: bool)
    requires
        0 <= node < seen.len(),
        !pick(seen[node], dir),
    ensures
        unseen(seen.update(node, put(seen[node], dir, true))) + 1 == unseen(seen),
    decreases seen.len(),
{
    let next = seen.update(node, put(seen[node], dir, true));
    if node == seen.len() - 1 {
        assert(next.drop_last() =~= seen.drop_last());
    } else {
        lemma_unseen_mark(seen.drop_last(), node, dir);
        assert(next.drop_last() =~= seen.drop_last().update(
            node,
            put(seen.drop_last()[node], dir, true),
        ));
    }
}

/// The state of a search.
pub struct Search {
    /// The sides still to explore, each with its distance from the origin.
    pub queue: Seq<(usize, bool, usize)>,
    /// The sides reached so far.
    pub seen: Seq<(bool, bool)>,
    /// For each side reached from another, the side it was reached from.
    pub chain: Seq<(Option<Side>, Option<Side>)>,
    /// The chain from the destination back to the origin, once it was found.
    pub list: Option<Seq<Side>>,
    /// The sides that were reached a second time.
    pub revisited: Seq<(bool, bool)>,
}

/// The distance after one more node, counted up to the largest number; a
/// node fixed dark adds nothing.
pub open spec fn step(dist: usize, transparent: bool) -> usize {
    if transparent || dist == usize::MAX {
        dist
    } else {
        (dist + 1) as usize
    }
}

/// The search after the first `len` connections of the side `from` were
/// followed.
pub open spec fn expand(
    s: Search,
    conns: Seq<(usize, bool)>,
    len: int,
    from: Side,
    dist: usize,
    transparent: bool,
) -> Search
    decreases len,
{
    if len <= 0 {
        s
    } else {
        let p = expand(s, conns, len - 1, from, dist, transparent);
        let (node, facing) = conns[len - 1];
        let dir = !facing;
        if node < p.seen.len() && !pick(p.seen[node as int], dir) {
            let next = (node, dir, step(dist, transparent));
            Search {
                seen: p.seen.update(node as int, put(p.seen[node as int], dir, true)),
                chain: p.chain.update(node as int, put(p.chain[node as int], dir, Some(from))),
                queue: if transparent {
                    seq![next] + p.queue
                } else {
                    p.queue.push(next)
                },
                ..p
            }
        } else {
            Search {
                revisited: p.revisited.update(
                    node as int,
                    put(p.revisited[node as int], dir, true),
                ),
                ..p
            }
        }
    }
}

/// Following connections keeps the number of unmarked sides plus the length
/// of the queue.
pub proof fn lemma_expand_measure(
    s: Search,
    conns: Seq<(usize, bool)>,
    len: int,
    from: Side,
    dist: usize,
    transparent: bool,
)
    ensures
        ({
            let e = expand(s, conns, len, from, dist, transparent);
            &&& e.seen.len() == s.seen.len()
            &&& unseen(e.seen) + e.queue.len() == unseen(s.seen) + s.queue.len()
            &&& e.list == s.list
        }),
    decreases len,
{
    if len > 0 {
        lemma_expand_measure(s, conns, len - 1, from, dist, transparent);
        let p = expand(s, conns, len - 1, from, dist, transparent);
        let (node, facing) = conns[len - 1];
        if node < p.seen.len() && !pick(p.seen[node as int], !facing) {
            lemma_unseen_mark(p.seen, node as int, !facing);
        }
    }
}

/// The chain from `item` back to where it started, unless it is longer than
/// a thousand sides together with the `taken` before it.
pub open spec fn walk(chain: Seq<(Option<Side>, Option<Side>)>, item: Side, taken: nat) -> Option<
    Seq<Side>,
>
    decreases 1000 - taken,
{
    if taken >= 1000 {
        None
    } else {
        match pick(chain[item.0 as int], item.1) {
            None => Some(seq![item]),
            Some(prev) => match walk(chain, prev, taken + 1) {
                Some(l) => Some(seq![item] + l),
                None => None,
            },
        }
    }
}

/// `l` followed by `r`, where there is an `r`.
pub open spec fn attach(l: Seq<Side>, r: Option<Seq<Side>>) -> Option<Seq<Side>> {
    match r {
        Some(x) => Some(l + x),
        None => None,
    }
}

/// The outcome of a search from state `s`: the chain from the destination
/// back to the origin with the sides reached twice, or nothing where there
/// is no route, the chain is too long, or the destination is reached again
/// after a first chain that was longer than one step.
pub open spec fn search(c: Aerodrome, profile: usize, dest: usize, s: Search) -> Option<
    (Seq<Side>, Seq<(bool, bool)>),
>
    decreases unseen(s.seen) + s.queue.len(),
{
    if s.queue.len() == 0 {
        match s.list {
            Some(l) => Some((l, s.revisited)),
            None => None,
        }
    } else {
        let (node, dir, dist) = s.queue[0];
        let rest = Search { queue: s.queue.drop_first(), ..s };
        let cond = c.profiles[profile as int].nodes[node as int];
        if cond == NodeCondition::Fixed(true) {
            search(c, profile, dest, rest)
        } else if node == dest {
            if s.list is None {
                match walk(s.chain, (node, dir), 0) {
                    None => None,
                    Some(l) => if dist > 1 {
                        search(c, profile, dest, Search { list: Some(l), ..rest })
                    } else {
                        Some((l, s.revisited))
                    },
                }
            } else {
                None
            }
        } else {
            let conns = side_conns(c, c.borders(node), node, if dir {
                1
            } else {
                0
            });
            proof {
                lemma_expand_measure(
                    rest,
                    conns,
                    conns.len() as int,
                    (node, dir),
                    dist,
                    cond == NodeCondition::Fixed(false),
                );
            }
            search(
                c,
                profile,
                dest,
                expand(
                    rest,
                    conns,
                    conns.len() as int,
                    (node, dir),
                    dist,
                    cond == NodeCondition::Fixed(false),
                ),
            )
        }
    }
}

/// The search at its start: both sides of the origin are reached and wait
/// to be explored.
pub open spec fn start(c: Aerodrome, orgn: usize) -> Search {
    let n = c.nodes.len() as nat;
    Search {
        queue: seq![(orgn, false, 0usize), (orgn, true, 0usize)],
        seen: Seq::new(n, |i: int| (i == orgn, i == orgn)),
        chain: Seq::new(n, |i: int| (None, None)),
        list: None,
        revisited: Seq::new(n, |i: int| (false, false)),
    }
}

/// Whether one of the first `len` sides of `list` was reached twice.
pub open spec fn any_revisited(list: Seq<Side>, revisited: Seq<(bool, bool)>, len: int) -> bool {
    exists|i: int| 0 <= i < len && pick(revisited[(#[trigger] list[i]).0 as int], list[i].1)
}

/// The block change for the step of the chain that arrives at `list[at]`:
/// the block on the side of the node before it, routed from that node.
pub open spec fn hop(c: Aerodrome, list: Seq<Side>, at: int) -> (usize, BlockState) {
    let (to, _) = list[at];
    let (from, dir) = list[at + 1];
    (pick(slots(c.borders(from)), dir) as usize, BlockState::Route((from, to)))
}

/// The first `count` block changes of a chain, starting at the origin.
pub open spec fn plan_upto(c: Aerodrome, list: Seq<Side>, count: int) -> Seq<(usize, BlockState)>
    decreases count,
{
    if count <= 0 {
        Seq::empty()
    } else {
        plan_upto(c, list, count - 1).push(hop(c, list, list.len() - 1 - count))
    }
}

/// The block changes that route from `orgn` to `dest` under profile
/// `profile`, in order from the origin; none where either node does not
/// exist or is not a router, or where the search finds no acceptable chain.
pub open spec fn route_plan(c: Aerodrome, profile: usize, orgn: usize, dest: usize) -> Seq<
    (usize, BlockState),
> {
    let nodes = c.profiles[profile as int].nodes;
    if orgn >= c.nodes.len() || dest >= c.nodes.len() || nodes[orgn as int]
        != NodeCondition::Router || nodes[dest as int] != NodeCondition::Router {
        Seq::empty()
    } else {
        match search(c, profile, dest, start(c, orgn)) {
            None => Seq::empty(),
            Some((list, revisited)) => if any_revisited(list, revisited, list.len() - 1) {
                Seq::empty()
            } else {
                plan_upto(c, list, list.len() - 1)
            },
        }
    }
}

/// The view of an optional list.
pub open spec fn list_view(list: Option<Vec<Side>>) -> Option<Seq<Side>> {
    match list {
        Some(l) => Some(l@),
        None => None,
    }
}

fn walk_chain(chain: &Vec<(Option<Side>, Option<Side>)>, from: Side) -> (r: Option<Vec<Side>>)
    requires
        from.0 < chain.len(),
        forall|i: int, d: bool|
            0 <= i < chain.len() ==> (#[trigger] pick(chain[i], d) matches Some(p) ==> p.0
                < chain.len()),
    ensures
        list_view(r) == walk(chain@, from, 0),
        r matches Some(l) ==> l.len() > 0 && forall|i: int|
            0 <= i < l.len() ==> (#[trigger] l[i]).0 < chain.len(),
{
    let mut list: Vec<Side> = Vec::new();
    let mut item = from;
    let mut taken: usize = 0;
    assert(Seq::<Side>::empty() + walk(chain@, from, 0).unwrap() =~= walk(
        chain@,
        from,
        0,
    ).unwrap());
    while taken < 1000
        invariant
            taken <= 1000,
            list.len() == taken,
            item.0 < chain.len(),
            forall|i: int, d: bool|
                0 <= i < chain.len() ==> (#[trigger] pick(chain[i], d) matches Some(p) ==> p.0
                    < chain.len()),
            forall|i: int| 0 <= i < list.len() ==> (#[trigger] list[i]).0 < chain.len(),
            walk(chain@, from, 0) == attach(list@, walk(chain@, item, taken as nat)),
        decreases 1000 - taken,
    {
        let ghost before = list@;
        list.push(item);
        let link = if item.1 {
            chain[item.0].1
        } else {
            chain[item.0].0
        };
        assert(link == pick(chain[item.0 as int], item.1));
        match link {
            None => {
                assert(before + seq![item] =~= list@);
                return Some(list);
            },
            Some(prev) => {
                proof {
                    match walk(chain@, prev, taken as nat + 1) {
                        Some(l) => {
                            assert(before + (seq![item] + l) =~= list@ + l);
                        },
                        None => {},
                    }
                }
                item = prev;
            },
        }
        taken += 1;
    }
    None
}

/// Plans the block changes that route from `orgn` to `dest`.
pub fn plan_route(c: &Aerodrome, t: &Tables, profile: usize, orgn: usize, dest: usize) -> (plan:
    Vec<(usize, BlockState)>)
    requires
        c.wf(),
        t.matches(*c),
        profile < c.profiles.len(),
    ensures
        plan@ == route_plan(*c, profile, orgn, dest),
        forall|i: int| 0 <= i < plan.len() ==> c.state_ok((#[trigger] plan[i]).1),
{
    let n = c.nodes.len();
    if orgn >= n || dest >= n {
        return Vec::new();
    }
    assert(c.profile_ok(c.profiles[profile as int]));
    match (c.profiles[profile].nodes[orgn], c.profiles[profile].nodes[dest]) {
        (NodeCondition::Router, NodeCondition::Router) => {},
        _ => {
            return Vec::new();
        },
    }
    let mut seen: Vec<(bool, bool)> = Vec::new();
    let mut chain: Vec<(Option<Side>, Option<Side>)> = Vec::new();
    let mut revisited: Vec<(bool, bool)> = Vec::new();
    let mut i: usize = 0;
    while i < n
        invariant
            i <= n,
            orgn < n,
            seen.len() == i,
            chain.len() == i,
            revisited.len() == i,
            forall|j: int| 0 <= j < i ==> #[trigger] seen[j] == (j == orgn, j == orgn),
            forall|j: int| 0 <= j < i ==> #[trigger] chain[j] == (None::<Side>, None::<Side>),
            forall|j: int| 0 <= j < i ==> #[trigger] revisited[j] == (false, false),
        decreases n - i,
    {
        seen.push((i == orgn, i == orgn));
        chain.push((None, None));
        revisited.push((false, false));
        i += 1;
    }
    let mut queue: VecDeque<(usize, bool, usize)> = VecDeque::new();
    queue.push_back((orgn, false, 0));
    queue.push_back((orgn, true, 0));
    let mut list: Option<Vec<Side>> = None;
    let mut done = false;
    let ghost target = search(*c, profile, dest, start(*c, orgn));
    proof {
        let s = start(*c, orgn);
        assert(queue@ =~= s.queue);
        assert(seen@ =~= s.seen);
        assert(chain@ =~= s.chain);
        assert(revisited@ =~= s.revisited);
    }
    while !done && queue.len() > 0
        invariant
            orgn < n,
            c.profiles[profile as int].nodes[orgn as int] == NodeCondition::Router,
            c.profiles[profile as int].nodes[dest as int] == NodeCondition::Router,
            target == search(*c, profile, dest, start(*c, orgn)),
            c.wf(),
            t.matches(*c),
            profile < c.profiles.len(),
            n == c.nodes.len(),
            dest < n,
            seen.len() == n,
            chain.len() == n,
            revisited.len() == n,
            forall|i: int| 0 <= i < queue@.len() ==> (#[trigger] queue@[i]).0 < n,
            forall|i: int, d: bool|
                0 <= i < chain.len() ==> (#[trigger] pick(chain[i], d) matches Some(p) ==> p.0 < n),
            list matches Some(l) ==> l.len() > 0 && forall|i: int|
                0 <= i < l.len() ==> (#[trigger] l[i]).0 < n,
            done ==> list is Some && target == Some((list.unwrap()@, revisited@)),
            !done ==> target == search(
                *c,
                profile,
                dest,
                Search {
                    queue: queue@,
                    seen: seen@,
                    chain: chain@,
                    list: list_view(list),
                    revisited: revisited@,
                },
            ),
        decreases (if done { 0nat } else { 1nat }) + unseen(seen@) + queue@.len(),
    {
        let ghost before = Search {
            queue: queue@,
            seen: seen@,
            chain: chain@,
            list: list_view(list),
            revisited: revisited@,
        };
        let (node, dir, dist) = queue.pop_front().unwrap();
        assert(queue@ =~= before.queue.drop_first());
        assert(before.queue[0].0 < n);
        assert(c.profile_ok(c.profiles[profile as int]));
        let cond = c.profiles[profile].nodes[node];
        let transparent = match cond {
            NodeCondition::Fixed(true) => {
                continue ;
            },
            NodeCondition::Fixed(false) => true,
            _ => false,
        };
        if node == dest {
            if list.is_none() {
                match walk_chain(&chain, (node, dir)) {
                    None => {
                        assert(search(*c, profile, dest, before) is None);
                        return Vec::new();
                    },
                    Some(l) => {
                        list = Some(l);
                        if dist > 1 {
                            continue ;
                        } else {
                            done = true;
                            continue ;
                        }
                    },
                }
            } else {
                assert(search(*c, profile, dest, before) is None);
                return Vec::new();
            }
        }
        let conns = if dir {
            &t.node_conns[node].1
        } else {
            &t.node_conns[node].0
        };
        let ghost rest = Search { queue: queue@, ..before };
        let ghost all = side_conns(*c, c.borders(node), node, if dir { 1 } else { 0 });
        assert(conns@ == all);
        proof {
            lemma_borders_in_range(*c, c.blocks.len() as int, node);
            let bs = c.borders(node);
            let side: int = if dir { 1 } else { 0 };
            if 0 <= side < bs.len() {
                lemma_conns_in_range(
                    *c,
                    bs[side],
                    node,
                    c.blocks[bs[side]].nodes.len() as int,
                );
            }
            lemma_expand_measure(rest, all, all.len() as int, (node, dir), dist, transparent);
        }
        let mut k: usize = 0;
        while k < conns.len()
            invariant
                n == c.nodes.len(),
                node < n,
                k <= conns.len(),
                conns@ == all,
                forall|i: int| 0 <= i < all.len() ==> (#[trigger] all[i]).0 < n,
                seen.len() == n,
                chain.len() == n,
                revisited.len() == n,
                forall|i: int| 0 <= i < queue@.len() ==> (#[trigger] queue@[i]).0 < n,
                forall|i: int, d: bool|
                    0 <= i < chain.len() ==> (#[trigger] pick(chain[i], d) matches Some(p) ==> p.0
                        < n),
                list_view(list) == rest.list,
                expand(rest, all, k as int, (node, dir), dist, transparent) == (Search {
                    queue: queue@,
                    seen: seen@,
                    chain: chain@,
                    list: list_view(list),
                    revisited: revisited@,
                }),
            decreases conns.len() - k,
        {
            let (next_node, facing) = conns[k];
            assert(all[k as int].0 < n);
            let next_dir = !facing;
            let ghost old_chain = chain@;
            let marks = seen[next_node];
            let marked = if next_dir {
                marks.1
            } else {
                marks.0
            };
            if !marked {
                let far = if transparent || dist == usize::MAX {
                    dist
                } else {
                    dist + 1
                };
                let links = chain[next_node];
                if next_dir {
                    seen[next_node] = (marks.0, true);
                    chain[next_node] = (links.0, Some((node, dir)));
                } else {
                    seen[next_node] = (true, marks.1);
                    chain[next_node] = (Some((node, dir)), links.1);
                }
                if transparent {
                    queue.push_front((next_node, next_dir, far));
                } else {
                    queue.push_back((next_node, next_dir, far));
                }
            } else {
                let again = revisited[next_node];
                if next_dir {
                    revisited[next_node] = (again.0, true);
                } else {
                    revisited[next_node] = (true, again.1);
                }
            }
            assert forall|i: int, d: bool| 0 <= i < chain.len() implies (#[trigger] pick(
                chain[i],
                d,
            ) matches Some(p) ==> p.0 < n) by {
                if i == next_node {
                    if d != next_dir {
                        assert(pick(chain[i], d) == pick(old_chain[i], d));
                    }
                } else {
                    assert(pick(chain[i], d) == pick(old_chain[i], d));
                }
            }
            k += 1;
        }
    }
    proof {
        if !done {
            assert(target == search(
                *c,
                profile,
                dest,
                Search {
                    queue: queue@,
                    seen: seen@,
                    chain: chain@,
                    list: list_view(list),
                    revisited: revisited@,
                },
            ));
        }
    }
    let list = match list {
        Some(l) => l,
        None => {
            assert(target is None);
            return Vec::new();
        },
    };
    assert(target == Some((list@, revisited@)));
    let last = list.len() - 1;
    let mut i: usize = 0;
    while i < last
        invariant
            orgn < n,
            dest < n,
            n == c.nodes.len(),
            c.profiles[profile as int].nodes[orgn as int] == NodeCondition::Router,
            c.profiles[profile as int].nodes[dest as int] == NodeCondition::Router,
            target == search(*c, profile, dest, start(*c, orgn)),
            target == Some((list@, revisited@)),
            i <= last,
            last == list.len() - 1,
            revisited.len() == n,
            forall|j: int| 0 <= j < list.len() ==> (#[trigger] list[j]).0 < n,
            forall|j: int| 0 <= j < i ==> !pick(revisited[(#[trigger] list[j]).0 as int], list[j].1),
        decreases last - i,
    {
        let (node, dir) = list[i];
        let again = revisited[node];
        if (dir && again.1) || (!dir && again.0) {
            assert(pick(revisited[list[i as int].0 as int], list[i as int].1));
            return Vec::new();
        }
        i += 1;
    }
    let mut plan: Vec<(usize, BlockState)> = Vec::new();
    let mut count: usize = 0;
    while count < last
        invariant
            count <= last,
            last == list.len() - 1,
            n == c.nodes.len(),
            t.matches(*c),
            forall|j: int| 0 <= j < list.len() ==> (#[trigger] list[j]).0 < n,
            plan@ == plan_upto(*c, list@, count as int),
            forall|i: int| 0 <= i < plan.len() ==> c.state_ok((#[trigger] plan[i]).1),
        decreases last - count,
    {
        let at = last - 1 - count;
        let (to, _) = list[at];
        let (from, dir) = list[at + 1];
        let blocks = t.node_blocks[from];
        let block = if dir {
            blocks.1
        } else {
            blocks.0
        };
        plan.push((block, BlockState::Route((from, to))));
        count += 1;
    }
    plan
}

/// The number of a side: 0 for the first border, 1 for the second.
pub open spec fn side_index(dir: bool) -> int {
    if dir {
        1
    } else {
        0
    }
}

/// Whether node `to` is a connection of the side `from`.
pub open spec fn linked(c: Aerodrome, from: Side, to: usize) -> bool {
    exists|k: int|
        0 <= k < side_conns(c, c.borders(from.0), from.0, side_index(from.1)).len()
            && (#[trigger] side_conns(c, c.borders(from.0), from.0, side_index(from.1))[k]).0
            == to
}

/// Every link of the chain leads over a connection.
pub open spec fn chain_ok(c: Aerodrome, chain: Seq<(Option<Side>, Option<Side>)>) -> bool {
    forall|m: int, d: bool|
        0 <= m < chain.len() ==> (#[trigger] pick(chain[m], d) matches Some(p) ==> p.0
            < c.nodes.len() && linked(c, p, m as usize))
}

/// The sides of the list are sides of nodes, and each is a connection of
/// the one after it.
pub open spec fn list_ok(c: Aerodrome, list: Seq<Side>) -> bool {
    &&& list.len() > 0
    &&& forall|i: int| 0 <= i < list.len() ==> (#[trigger] list[i]).0 < c.nodes.len()
    &&& forall|i: int| 0 <= i < list.len() - 1 ==> linked(c, #[trigger] list[i + 1], list[i].0)
}

/// The search state is sound.
pub open spec fn search_ok(c: Aerodrome, s: Search) -> bool {
    &&& s.seen.len() == c.nodes.len()
    &&& s.chain.len() == c.nodes.len()
    &&& chain_ok(c, s.chain)
    &&& forall|i: int| 0 <= i < s.queue.len() ==> (#[trigger] s.queue[i]).0 < c.nodes.len()
    &&& s.list matches Some(l) ==> list_ok(c, l)
}

/// The chain that is walked back from a side is sound.
pub proof fn lemma_walk_ok(c: Aerodrome, chain: Seq<(Option<Side>, Option<Side>)>, item: Side, taken: nat)
    requires
        chain.len() == c.nodes.len(),
        chain_ok(c, chain),
        item.0 < c.nodes.len(),
    ensures
        walk(chain, item, taken) matches Some(l) ==> list_ok(c, l) && l[0] == item,
    decreases 1000 - taken,
{
    if taken < 1000 {
        match pick(chain[item.0 as int], item.1) {
            None => {},
            Some(prev) => {
                lemma_walk_ok(c, chain, prev, taken + 1);
                match walk(chain, prev, taken + 1) {
                    Some(rest) => {
                        let l = seq![item] + rest;
                        assert forall|i: int| 0 <= i < l.len() implies (#[trigger] l[i]).0
                            < c.nodes.len() by {
                            if i > 0 {
                                assert(l[i] == rest[i - 1]);
                            }
                        }
                        assert forall|i: int| 0 <= i < l.len() - 1 implies linked(
                            c,
                            #[trigger] l[i + 1],
                            l[i].0,
                        ) by {
                            if i == 0 {
                                assert(l[1] == rest[0]);
                                assert(l[0] == item);
                                assert(pick(chain[item.0 as int], item.1) == Some(prev));
                                assert(linked(c, prev, item.0 as usize));
                            } else {
                                assert(l[i + 1] == rest[i]);
                                assert(l[i] == rest[i - 1]);
                                assert(linked(c, rest[(i - 1) + 1], rest[i - 1].0));
                            }
                        }
                    },
                    None => {},
                }
            },
        }
    }
}

/// Following the connections of a side keeps the search sound.
pub proof fn lemma_expand_ok(
    c: Aerodrome,
    s: Search,
    len: int,
    from: Side,
    dist: usize,
    transparent: bool,
)
    requires
        c.wf(),
        search_ok(c, s),
        from.0 < c.nodes.len(),
        0 <= len <= side_conns(c, c.borders(from.0), from.0, side_index(from.1)).len(),
    ensures
        search_ok(
            c,
            expand(
                s,
                side_conns(c, c.borders(from.0), from.0, side_index(from.1)),
                len,
                from,
                dist,
                transparent,
            ),
        ),
    decreases len,
{
    let conns = side_conns(c, c.borders(from.0), from.0, side_index(from.1));
    if len > 0 {
        lemma_expand_ok(c, s, len - 1, from, dist, transparent);
        let p = expand(s, conns, len - 1, from, dist, transparent);
        let e = expand(s, conns, len, from, dist, transparent);
        let (node, facing) = conns[len - 1];
        let dir = !facing;
        if node < p.seen.len() && !pick(p.seen[node as int], dir) {
            assert(linked(c, from, node)) by {
                assert(conns[len - 1].0 == node);
            }
            assert forall|m: int, d: bool| 0 <= m < e.chain.len() implies (#[trigger] pick(
                e.chain[m],
                d,
            ) matches Some(q) ==> q.0 < c.nodes.len() && linked(c, q, m as usize)) by {
                if m == node && d == dir {
                } else {
                    assert(pick(e.chain[m], d) == pick(p.chain[m], d));
                }
            }
            assert forall|i: int| 0 <= i < e.queue.len() implies (#[trigger] e.queue[i]).0
                < c.nodes.len() by {
                if transparent {
                    if i > 0 {
                        assert(e.queue[i] == p.queue[i - 1]);
                    }
                } else {
                    if i < p.queue.len() {
                        assert(e.queue[i] == p.queue[i]);
                    }
                }
            }
        }
    }
}

/// The chain that a sound search finds is sound.
pub proof fn lemma_search_ok(c: Aerodrome, profile: usize, dest: usize, s: Search)
    requires
        c.wf(),
        search_ok(c, s),
    ensures
        search(c, profile, dest, s) matches Some((l, _)) ==> list_ok(c, l),
    decreases unseen(s.seen) + s.queue.len(),
{
    if s.queue.len() > 0 {
        let (node, dir, dist) = s.queue[0];
        let rest = Search { queue: s.queue.drop_first(), ..s };
        assert(s.queue[0].0 < c.nodes.len());
        assert forall|i: int| 0 <= i < rest.queue.len() implies (#[trigger] rest.queue[i]).0
            < c.nodes.len() by {
            assert(rest.queue[i] == s.queue[i + 1]);
        }
        let cond = c.profiles[profile as int].nodes[node as int];
        if cond == NodeCondition::Fixed(true) {
            lemma_search_ok(c, profile, dest, rest);
        } else if node == dest {
            if s.list is None {
                lemma_walk_ok(c, s.chain, (node, dir), 0);
                match walk(s.chain, (node, dir), 0) {
                    None => {},
                    Some(l) => {
                        if dist > 1 {
                            lemma_search_ok(c, profile, dest, Search { list: Some(l), ..rest });
                        }
                    },
                }
            }
        } else {
            let conns = side_conns(c, c.borders(node), node, side_index(dir));
            let transparent = cond == NodeCondition::Fixed(false);
            lemma_expand_measure(rest, conns, conns.len() as int, (node, dir), dist, transparent);
            lemma_expand_ok(c, rest, conns.len() as int, (node, dir), dist, transparent);
            lemma_search_ok(
                c,
                profile,
                dest,
                expand(rest, conns, conns.len() as int, (node, dir), dist, transparent),
            );
        }
    }
}

/// A connection of a side leads through the block of that side, and the
/// block lists both nodes.
pub proof fn lemma_linked_block(c: Aerodrome, from: Side, to: usize)
    requires
        c.wf(),
        from.0 < c.nodes.len(),
        linked(c, from, to),
    ensures
        ({
            let b = pick(slots(c.borders(from.0)), from.1);
            &&& 0 <= b < c.blocks.len()
            &&& c.blocks[b].nodes@.contains(from.0)
            &&& c.blocks[b].nodes@.contains(to)
        }),
{
    let bs = c.borders(from.0);
    let side = side_index(from.1);
    let conns = side_conns(c, bs, from.0, side);
    let k = choose|k: int| 0 <= k < conns.len() && (#[trigger] conns[k]).0 == to;
    assert(0 <= side < bs.len());
    assert(bs.len() <= 2);
    let b = bs[side];
    crate::topology::lemma_border_lists_node(c, c.blocks.len() as int, from.0, side);
    crate::topology::lemma_conns_members(c, b, from.0, c.blocks[b].nodes.len() as int);
    assert(c.blocks[b].nodes@.contains(conns[k].0));
}

/// Every step of a route plan routes a block between two nodes that the
/// block lists.
pub proof fn lemma_route_plan_within_blocks(c: Aerodrome, profile: usize, orgn: usize, dest: usize)
    requires
        c.wf(),
        profile < c.profiles.len(),
    ensures
        forall|i: int|
            0 <= i < route_plan(c, profile, orgn, dest).len() ==> {
                let (block, state) = #[trigger] route_plan(c, profile, orgn, dest)[i];
                &&& block < c.blocks.len()
                &&& state matches BlockState::Route((from, to))
                &&& c.blocks[block as int].nodes@.contains(from)
                &&& c.blocks[block as int].nodes@.contains(to)
            },
{
    let plan = route_plan(c, profile, orgn, dest);
    if plan.len() > 0 {
        let s = start(c, orgn);
        assert(chain_ok(c, s.chain));
        assert(search_ok(c, s));
        lemma_search_ok(c, profile, dest, s);
        let (list, revisited) = search(c, profile, dest, s).unwrap();
        lemma_plan_within_blocks(c, list, list.len() - 1);
    }
}

/// The steps of the plan of a sound chain stay within their blocks.
pub proof fn lemma_plan_within_blocks(c: Aerodrome, list: Seq<Side>, count: int)
    requires
        c.wf(),
        list_ok(c, list),
        0 <= count <= list.len() - 1,
    ensures
        plan_upto(c, list, count).len() == count,
        forall|i: int|
            0 <= i < count ==> {
                let (block, state) = #[trigger] plan_upto(c, list, count)[i];
                &&& block < c.blocks.len()
                &&& state matches BlockState::Route((from, to))
                &&& c.blocks[block as int].nodes@.contains(from)
                &&& c.blocks[block as int].nodes@.contains(to)
            },
    decreases count,
{
    if count > 0 {
        lemma_plan_within_blocks(c, list, count - 1);
        let at = list.len() - 1 - count;
        assert(linked(c, list[at + 1], list[at].0));
        assert(list[at + 1].0 < c.nodes.len());
        lemma_linked_block(c, list[at + 1], list[at].0);
        let all = plan_upto(c, list, count);
        let head = plan_upto(c, list, count - 1);
        assert forall|i: int| 0 <= i < count implies {
            let (block, state) = #[trigger] all[i];
            &&& block < c.blocks.len()
            &&& state matches BlockState::Route((from, to))
            &&& c.blocks[block as int].nodes@.contains(from)
            &&& c.blocks[block as int].nodes@.contains(to)
        } by {
            if i < count - 1 {
                assert(all[i] == head[i]);
            }
        }
    }
}

/// Every side that was reached but from no other side is a side of the
/// origin, every link of the chain starts at a side that was reached, and
/// so does every entry of the queue.
pub open spec fn rooted(s: Search, orgn: usize) -> bool {
    &&& s.seen.len() == s.chain.len()
    &&& forall|m: int, d: bool|
        0 <= m < s.chain.len() && pick(s.seen[m], d) && (#[trigger] pick(s.chain[m], d)) is None
            ==> m == orgn
    &&& forall|m: int, d: bool|
        0 <= m < s.chain.len() ==> (#[trigger] pick(s.chain[m], d) matches Some(p) ==> p.0
            < s.seen.len() && pick(s.seen[p.0 as int], p.1))
    &&& forall|i: int|
        0 <= i < s.queue.len() ==> (#[trigger] s.queue[i]).0 < s.seen.len() && pick(
            s.seen[s.queue[i].0 as int],
            s.queue[i].1,
        )
}

/// The chain that is walked back from a side that was reached ends at the
/// origin.
pub proof fn lemma_walk_rooted(s: Search, orgn: usize, item: Side, taken: nat)
    requires
        rooted(s, orgn),
        item.0 < s.seen.len(),
        pick(s.seen[item.0 as int], item.1),
    ensures
        walk(s.chain, item, taken) matches Some(l) ==> l.len() > 0 && l.last().0 == orgn,
    decreases 1000 - taken,
{
    if taken < 1000 {
        match pick(s.chain[item.0 as int], item.1) {
            None => {},
            Some(prev) => {
                lemma_walk_rooted(s, orgn, prev, taken + 1);
                match walk(s.chain, prev, taken + 1) {
                    Some(rest) => {
                        assert((seq![item] + rest).last() == rest.last());
                    },
                    None => {},
                }
            },
        }
    }
}

/// Following the connections of a side that was reached keeps the search
/// rooted at the origin.
pub proof fn lemma_expand_rooted(
    s: Search,
    orgn: usize,
    conns: Seq<(usize, bool)>,
    len: int,
    from: Side,
    dist: usize,
    transparent: bool,
)
    requires
        rooted(s, orgn),
        from.0 < s.seen.len(),
        pick(s.seen[from.0 as int], from.1),
        0 <= len <= conns.len(),
    ensures
        rooted(expand(s, conns, len, from, dist, transparent), orgn),
        forall|m: int, d: bool|
            0 <= m < s.seen.len() && pick(s.seen[m], d) ==> #[trigger] pick(
                expand(s, conns, len, from, dist, transparent).seen[m],
                d,
            ),
    decreases len,
{
    if len > 0 {
        lemma_expand_rooted(s, orgn, conns, len - 1, from, dist, transparent);
        lemma_expand_measure(s, conns, len - 1, from, dist, transparent);
        let p = expand(s, conns, len - 1, from, dist, transparent);
        let e = expand(s, conns, len, from, dist, transparent);
        let (node, facing) = conns[len - 1];
        let dir = !facing;
        if node < p.seen.len() && !pick(p.seen[node as int], dir) {
            assert(pick(p.seen[from.0 as int], from.1));
            assert forall|m: int, d: bool| 0 <= m < e.chain.len() && pick(e.seen[m], d) && (
            #[trigger] pick(e.chain[m], d)) is None implies m == orgn by {
                if m == node && d == dir {
                } else {
                    assert(pick(e.chain[m], d) == pick(p.chain[m], d));
                    assert(pick(e.seen[m], d) == pick(p.seen[m], d));
                }
            }
            assert forall|m: int, d: bool| 0 <= m < e.chain.len() implies (#[trigger] pick(
                e.chain[m],
                d,
            ) matches Some(q) ==> q.0 < e.seen.len() && pick(e.seen[q.0 as int], q.1)) by {
                if m == node && d == dir {
                } else {
                    assert(pick(e.chain[m], d) == pick(p.chain[m], d));
                    match pick(p.chain[m], d) {
                        Some(q) => {
                            assert(pick(p.seen[q.0 as int], q.1));
                        },
                        None => {},
                    }
                }
            }
            assert forall|i: int| 0 <= i < e.queue.len() implies (#[trigger] e.queue[i]).0
                < e.seen.len() && pick(e.seen[e.queue[i].0 as int], e.queue[i].1) by {
                if transparent {
                    if i > 0 {
                        assert(e.queue[i] == p.queue[i - 1]);
                        assert(pick(p.seen[p.queue[i - 1].0 as int], p.queue[i - 1].1));
                    }
                } else {
                    if i < p.queue.len() {
                        assert(e.queue[i] == p.queue[i]);
                        assert(pick(p.seen[p.queue[i].0 as int], p.queue[i].1));
                    }
                }
            }
            assert forall|m: int, d: bool| 0 <= m < s.seen.len() && pick(
                s.seen[m],
                d,
            ) implies #[trigger] pick(e.seen[m], d) by {
                assert(pick(p.seen[m], d));
            }
        }
    }
}

/// The chain that a rooted search finds starts at the destination and ends
/// at the origin.
pub proof fn lemma_search_rooted(c: Aerodrome, profile: usize, dest: usize, orgn: usize, s: Search)
    requires
        rooted(s, orgn),
        s.list matches Some(l) ==> l.len() > 0 && l[0].0 == dest && l.last().0 == orgn,
    ensures
        search(c, profile, dest, s) matches Some((l, _)) ==> l.len() > 0 && l[0].0 == dest
            && l.last().0 == orgn,
    decreases unseen(s.seen) + s.queue.len(),
{
    if s.queue.len() > 0 {
        let (node, dir, dist) = s.queue[0];
        let rest = Search { queue: s.queue.drop_first(), ..s };
        assert(s.queue[0].0 < s.seen.len() && pick(s.seen[s.queue[0].0 as int], s.queue[0].1));
        assert forall|i: int| 0 <= i < rest.queue.len() implies (#[trigger] rest.queue[i]).0
            < rest.seen.len() && pick(rest.seen[rest.queue[i].0 as int], rest.queue[i].1) by {
            assert(rest.queue[i] == s.queue[i + 1]);
        }
        assert(rooted(rest, orgn));
        let cond = c.profiles[profile as int].nodes[node as int];
        if cond == NodeCondition::Fixed(true) {
            lemma_search_rooted(c, profile, dest, orgn, rest);
        } else if node == dest {
            if s.list is None {
                lemma_walk_rooted(s, orgn, (node, dir), 0);
                match walk(s.chain, (node, dir), 0) {
                    None => {},
                    Some(l) => {
                        lemma_walk_head(s.chain, (node, dir), 0);
                        if dist > 1 {
                            let next = Search { list: Some(l), ..rest };
                            assert(rooted(next, orgn));
                            lemma_search_rooted(c, profile, dest, orgn, next);
                        }
                    },
                }
            }
        } else {
            let conns = side_conns(c, c.borders(node), node, if dir {
                1
            } else {
                0
            });
            let transparent = cond == NodeCondition::Fixed(false);
            lemma_expand_measure(rest, conns, conns.len() as int, (node, dir), dist, transparent);
            lemma_expand_rooted(rest, orgn, conns, conns.len() as int, (node, dir), dist, transparent);
            lemma_search_rooted(
                c,
                profile,
                dest,
                orgn,
                expand(rest, conns, conns.len() as int, (node, dir), dist, transparent),
            );
        }
    }
}

/// The chain that is walked back from a side starts with that side.
pub proof fn lemma_walk_head(chain: Seq<(Option<Side>, Option<Side>)>, item: Side, taken: nat)
    ensures
        walk(chain, item, taken) matches Some(l) ==> l.len() > 0 && l[0] == item,
{
}

/// A connection of a side is not one of the pairs that the block of the side
/// forbids.
pub proof fn lemma_linked_allowed(c: Aerodrome, from: Side, to: usize)
    requires
        c.wf(),
        from.0 < c.nodes.len(),
        linked(c, from, to),
    ensures
        !crate::config::lists_pair(
            c.blocks[pick(slots(c.borders(from.0)), from.1)].non_routes@,
            from.0,
            to,
        ),
{
    let bs = c.borders(from.0);
    let side = side_index(from.1);
    let conns = side_conns(c, bs, from.0, side);
    let k = choose|k: int| 0 <= k < conns.len() && (#[trigger] conns[k]).0 == to;
    assert(0 <= side < bs.len());
    assert(bs.len() <= 2);
    let b = bs[side];
    lemma_borders_in_range(c, c.blocks.len() as int, from.0);
    crate::topology::lemma_conns_allowed(c, b, from.0, c.blocks[b].nodes.len() as int);
    assert(!crate::config::lists_pair(c.blocks[b].non_routes@, from.0, conns[k].0));
}

/// The step of a plan: the node it leaves and the node it reaches.
pub open spec fn step_ends(step: (usize, BlockState)) -> (usize, usize) {
    match step.1 {
        BlockState::Route(r) => r,
        _ => (0, 0),
    }
}

/// A plan that is not empty is a chain from the origin to the destination:
/// the first step leaves the origin, each step leaves the node that the step
/// before it reached, the last step reaches the destination, and no step
/// routes over a pair that its block forbids.
pub proof fn lemma_route_plan_is_chain(c: Aerodrome, profile: usize, orgn: usize, dest: usize)
    requires
        c.wf(),
        profile < c.profiles.len(),
    ensures
        ({
            let plan = route_plan(c, profile, orgn, dest);
            plan.len() > 0 ==> {
                &&& step_ends(plan[0]).0 == orgn
                &&& step_ends(plan.last()).1 == dest
                &&& forall|i: int|
                    0 <= i < plan.len() - 1 ==> step_ends(#[trigger] plan[i + 1]).0 == step_ends(
                        plan[i],
                    ).1
                &&& forall|i: int|
                    0 <= i < plan.len() ==> (#[trigger] plan[i]).1 is Route && plan[i].0
                        < c.blocks.len() && !crate::config::lists_pair(
                        c.blocks[plan[i].0 as int].non_routes@,
                        step_ends(plan[i]).0,
                        step_ends(plan[i]).1,
                    )
            }
        }),
{
    let plan = route_plan(c, profile, orgn, dest);
    if plan.len() > 0 {
        let s = start(c, orgn);
        assert(chain_ok(c, s.chain));
        assert(search_ok(c, s));
        assert(rooted(s, orgn));
        lemma_search_ok(c, profile, dest, s);
        lemma_search_rooted(c, profile, dest, orgn, s);
        let (list, revisited) = search(c, profile, dest, s).unwrap();
        let count = list.len() - 1;
        lemma_plan_within_blocks(c, list, count);
        lemma_plan_steps(c, list, count);
        assert forall|i: int| 0 <= i < plan.len() implies (#[trigger] plan[i]).1 is Route
            && plan[i].0 < c.blocks.len() && !crate::config::lists_pair(
            c.blocks[plan[i].0 as int].non_routes@,
            step_ends(plan[i]).0,
            step_ends(plan[i]).1,
        ) by {
            let at = list.len() - 2 - i;
            assert(plan[i] == hop(c, list, at));
            assert(linked(c, list[at + 1], list[at].0));
            assert(list[at + 1].0 < c.nodes.len());
            lemma_linked_allowed(c, list[at + 1], list[at].0);
            lemma_linked_block(c, list[at + 1], list[at].0);
        }
        assert forall|i: int| 0 <= i < plan.len() - 1 implies step_ends(#[trigger] plan[i + 1]).0
            == step_ends(plan[i]).1 by {
            assert(plan[i] == hop(c, list, list.len() - 2 - i));
            assert(plan[i + 1] == hop(c, list, list.len() - 3 - i));
        }
        assert(plan[0] == hop(c, list, list.len() - 2));
        assert(plan[count - 1] == hop(c, list, 0));
    }
}

/// Step `i` of a plan is the hop that arrives at the side `i + 2` from the
/// end of the chain.
pub proof fn lemma_plan_steps(c: Aerodrome, list: Seq<Side>, count: int)
    requires
        0 <= count <= list.len() - 1,
    ensures
        plan_upto(c, list, count).len() == count,
        forall|i: int|
            0 <= i < count ==> #[trigger] plan_upto(c, list, count)[i] == hop(
                c,
                list,
                list.len() - 2 - i,
            ),
    decreases count,
{
    if count > 0 {
        lemma_plan_steps(c, list, count - 1);
    }
}

} // verus!
