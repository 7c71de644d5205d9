//! Adjacency derived from a configuration: which blocks a node borders, which
//! nodes it connects to through each of them, and which nodes are its children.

use crate::config::{borders_in, borders_upto, has_pair, lists_pair, Aerodrome};
use vstd::prelude::*;

verus! {

/// The connections of node `n` through block `b`, as far as the first `len`
/// boundary nodes of the block give them: every other boundary node `m` that
/// may be routed to, with whether `m` borders an earlier block.
pub open spec fn conns_upto(c: Aerodrome, b: int, n: usize, len: int) -> Seq<(usize, bool)>
    decreases len,
{
    if len <= 0 {
        Seq::empty()
    } else {
        let m = c.blocks[b].nodes[len - 1];
        let rest = conns_upto(c, b, n, len - 1);
        if m != n && !lists_pair(c.blocks[b].non_routes@, m, n) {
            rest.push((m, borders_upto(c.blocks@, b, m).len() > 0))
        } else {
            rest
        }
    }
}

/// The connections of node `n` through block `b`.
pub open spec fn conns_of(c: Aerodrome, b: int, n: usize) -> Seq<(usize, bool)> {
    conns_upto(c, b, n, c.blocks[b].nodes.len() as int)
}

/// The two block slots of a node whose borders are `borders`: the first
/// border and the last one, or block 0 twice where it has none.
pub open spec fn slots(borders: Seq<int>) -> (int, int) {
    if borders.len() == 0 {
        (0, 0)
    } else {
        (borders[0], borders.last())
    }
}

/// The connections through the border number `side`, empty where the node
/// has no such border.
pub open spec fn side_conns(c: Aerodrome, borders: Seq<int>, n: usize, side: int) -> Seq<
    (usize, bool),
> {
    if 0 <= side < borders.len() {
        conns_of(c, borders[side], n)
    } else {
        Seq::empty()
    }
}

/// The children of node `p` among the first `len` nodes, ascending.
pub open spec fn children_upto(c: Aerodrome, p: usize, len: int) -> Seq<usize>
    decreases len,
{
    if len <= 0 {
        Seq::empty()
    } else if c.nodes[len - 1].parent == Some(p) {
        children_upto(c, p, len - 1).push((len - 1) as usize)
    } else {
        children_upto(c, p, len - 1)
    }
}

/// The children of node `p`, ascending.
pub open spec fn children_of(c: Aerodrome, p: usize) -> Seq<usize> {
    children_upto(c, p, c.nodes.len() as int)
}

/// Every border is the index of a block.
pub proof fn lemma_borders_in_range(c: Aerodrome, b: int, n: usize)
    requires
        0 <= b <= c.blocks.len(),
    ensures
        forall|i: int|
            0 <= i < borders_upto(c.blocks@, b, n).len() ==> 0 <= #[trigger] borders_upto(
                c.blocks@,
                b,
                n,
            )[i] < b,
    decreases b,
{
    if b > 0 {
        lemma_borders_in_range(c, b - 1, n);
        lemma_borders_in(c.blocks[b - 1].nodes@, c.blocks[b - 1].nodes.len() as int, b - 1, n);
        let head = borders_upto(c.blocks@, b - 1, n);
        let tail = borders_in(c.blocks[b - 1].nodes@, c.blocks[b - 1].nodes.len() as int, b - 1, n);
        let all = borders_upto(c.blocks@, b, n);
        assert(all == head + tail);
        assert forall|i: int| 0 <= i < all.len() implies 0 <= #[trigger] all[i] < b by {
            if i < head.len() {
                assert(all[i] == head[i]);
            } else {
                assert(all[i] == tail[i - head.len()]);
            }
        }
    }
}

/// `borders_in` holds only the index it was given.
pub proof fn lemma_borders_in(nodes: Seq<usize>, len: int, b: int, n: usize)
    ensures
        forall|i: int|
            0 <= i < borders_in(nodes, len, b, n).len() ==> #[trigger] borders_in(
                nodes,
                len,
                b,
                n,
            )[i] == b,
    decreases len,
{
    if len > 0 {
        lemma_borders_in(nodes, len - 1, b, n);
        let all = borders_in(nodes, len, b, n);
        let head = borders_in(nodes, len - 1, b, n);
        assert forall|i: int| 0 <= i < all.len() implies #[trigger] all[i] == b by {
            if i < head.len() {
                assert(all[i] == head[i]);
            }
        }
    }
}

/// Borders only grow with the number of blocks looked at.
pub proof fn lemma_borders_grow(c: Aerodrome, a: int, b: int, n: usize)
    requires
        0 <= a <= b,
    ensures
        borders_upto(c.blocks@, a, n).len() <= borders_upto(c.blocks@, b, n).len(),
    decreases b - a,
{
    if a < b {
        lemma_borders_grow(c, a, b - 1, n);
    }
}

/// Every connection leads to a node of the configuration.
pub proof fn lemma_conns_in_range(c: Aerodrome, b: int, n: usize, len: int)
    requires
        c.blocks_in_range(),
        0 <= b < c.blocks.len(),
        0 <= len <= c.blocks[b].nodes.len(),
    ensures
        forall|i: int|
            0 <= i < conns_upto(c, b, n, len).len() ==> (#[trigger] conns_upto(
                c,
                b,
                n,
                len,
            )[i]).0 < c.nodes.len(),
    decreases len,
{
    if len > 0 {
        lemma_conns_in_range(c, b, n, len - 1);
        assert(c.blocks[b].nodes[len - 1] < c.nodes.len());
        let all = conns_upto(c, b, n, len);
        let head = conns_upto(c, b, n, len - 1);
        assert forall|i: int| 0 <= i < all.len() implies (#[trigger] all[i]).0
            < c.nodes.len() by {
            if i < head.len() {
                assert(all[i] == head[i]);
            }
        }
    }
}

/// Every child is a node that comes after its parent.
pub proof fn lemma_children_in_range(c: Aerodrome, p: usize, len: int)
    requires
        0 <= len <= c.nodes.len(),
    ensures
        forall|i: int|
            0 <= i < children_upto(c, p, len).len() ==> {
                let x = #[trigger] children_upto(c, p, len)[i];
                x < len && c.nodes[x as int].parent == Some(p)
            },
    decreases len,
{
    if len > 0 {
        lemma_children_in_range(c, p, len - 1);
        let all = children_upto(c, p, len);
        let head = children_upto(c, p, len - 1);
        assert forall|i: int| 0 <= i < all.len() implies {
            let x = #[trigger] all[i];
            x < len && c.nodes[x as int].parent == Some(p)
        } by {
            if i < head.len() {
                assert(all[i] == head[i]);
            }
        }
    }
}

/// The adjacency tables of one configuration.
#[derive(Debug)]
pub struct Tables {
    pub node_blocks: Vec<(usize, usize)>,
    pub node_conns: Vec<(Vec<(usize, bool)>, Vec<(usize, bool)>)>,
    pub children: Vec<Vec<usize>>,
}

impl Tables {
    /// The tables are those of configuration `c`.
    pub open spec fn matches(&self, c: Aerodrome) -> bool {
        &&& self.node_blocks.len() == c.nodes.len()
        &&& self.node_conns.len() == c.nodes.len()
        &&& self.children.len() == c.nodes.len()
        &&& forall|n: usize|
            n < c.nodes.len() ==> {
                &&& (#[trigger] self.node_blocks[n as int]).0 == slots(c.borders(n)).0
                &&& self.node_blocks[n as int].1 == slots(c.borders(n)).1
            }
        &&& forall|n: usize|
            n < c.nodes.len() ==> {
                &&& (#[trigger] self.node_conns[n as int]).0@ == side_conns(c, c.borders(n), n, 0)
                &&& self.node_conns[n as int].1@ == side_conns(c, c.borders(n), n, 1)
            }
        &&& forall|p: usize|
            p < c.nodes.len() ==> (#[trigger] self.children[p as int])@ == children_of(c, p)
    }

    fn connections(c: &Aerodrome, b: usize, borders: &Vec<u8>) -> (conns: Vec<(usize, bool)>)
        requires
            c.blocks_in_range(),
            b < c.blocks.len(),
            borders.len() == c.nodes.len(),
            forall|m: usize|
                m < c.nodes.len() ==> (#[trigger] borders[m as int]) as int == borders_upto(
                    c.blocks@,
                    b as int,
                    m,
                ).len(),
        ensures
            conns.len() == c.blocks[b as int].nodes.len(),
            forall|i: int|
                0 <= i < conns.len() ==> #[trigger] conns[i] == (
                    c.blocks[b as int].nodes[i],
                    borders_upto(c.blocks@, b as int, c.blocks[b as int].nodes[i]).len() > 0,
                ),
    {
        let nodes = &c.blocks[b].nodes;
        let mut conns: Vec<(usize, bool)> = Vec::new();
        let mut i: usize = 0;
        while i < nodes.len()
            invariant
                c.blocks_in_range(),
                b < c.blocks.len(),
                *nodes == c.blocks[b as int].nodes,
                borders.len() == c.nodes.len(),
                forall|m: usize|
                    m < c.nodes.len() ==> (#[trigger] borders[m as int]) as int == borders_upto(
                        c.blocks@,
                        b as int,
                        m,
                    ).len(),
                i <= nodes.len(),
                conns.len() == i,
                forall|j: int|
                    0 <= j < i ==> #[trigger] conns[j] == (
                        nodes[j],
                        borders_upto(c.blocks@, b as int, nodes[j]).len() > 0,
                    ),
            decreases nodes.len() - i,
        {
            let m = nodes[i];
            assert(c.blocks[b as int].nodes[i as int] < c.nodes.len());
            conns.push((m, borders[m] > 0));
            i += 1;
        }
        conns
    }

    fn filter(c: &Aerodrome, b: usize, conns: &Vec<(usize, bool)>, n: usize) -> (r: Vec<
        (usize, bool),
    >)
        requires
            b < c.blocks.len(),
            conns.len() == c.blocks[b as int].nodes.len(),
            forall|i: int|
                0 <= i < conns.len() ==> #[trigger] conns[i] == (
                    c.blocks[b as int].nodes[i],
                    borders_upto(c.blocks@, b as int, c.blocks[b as int].nodes[i]).len() > 0,
                ),
        ensures
            r@ == conns_of(*c, b as int, n),
    {
        let mut r: Vec<(usize, bool)> = Vec::new();
        let mut i: usize = 0;
        while i < conns.len()
            invariant
                b < c.blocks.len(),
                conns.len() == c.blocks[b as int].nodes.len(),
                forall|j: int|
                    0 <= j < conns.len() ==> #[trigger] conns[j] == (
                        c.blocks[b as int].nodes[j],
                        borders_upto(c.blocks@, b as int, c.blocks[b as int].nodes[j]).len() > 0,
                    ),
                i <= conns.len(),
                r@ == conns_upto(*c, b as int, n, i as int),
            decreases conns.len() - i,
        {
            let e = conns[i];
            if e.0 != n && !has_pair(&c.blocks[b].non_routes, e.0, n) {
                r.push(e);
            }
            i += 1;
        }
        r
    }

    fn kinship(c: &Aerodrome) -> (children: Vec<Vec<usize>>)
        requires
            c.parents_prior(),
        ensures
            children.len() == c.nodes.len(),
            forall|p: usize|
                p < c.nodes.len() ==> (#[trigger] children[p as int])@ == children_of(*c, p),
    {
        let mut children: Vec<Vec<usize>> = Vec::new();
        let mut i: usize = 0;
        while i < c.nodes.len()
            invariant
                i <= c.nodes.len(),
                children.len() == i,
                forall|p: int| 0 <= p < i ==> (#[trigger] children[p])@ == Seq::<usize>::empty(),
            decreases c.nodes.len() - i,
        {
            children.push(Vec::new());
            i += 1;
        }
        let mut i: usize = 0;
        while i < c.nodes.len()
            invariant
                c.parents_prior(),
                i <= c.nodes.len(),
                children.len() == c.nodes.len(),
                forall|p: usize|
                    p < c.nodes.len() ==> (#[trigger] children[p as int])@ == children_upto(
                        *c,
                        p,
                        i as int,
                    ),
            decreases c.nodes.len() - i,
        {
            let ghost before = children@;
            match c.nodes[i].parent {
                Some(p) => {
                    assert(p < i) by {
                        let nd = c.nodes[i as int];
                    }
                    let mut row: Vec<usize> = Vec::new();
                    std::mem::swap(&mut row, &mut children[p]);
                    row.push(i);
                    children[p] = row;
                    assert forall|q: usize| q < c.nodes.len() implies (
                    #[trigger] children[q as int])@ == children_upto(*c, q, i as int + 1) by {
                        if q != p {
                            assert(children[q as int] == before[q as int]);
                        }
                    }
                },
                None => {},
            }
            i += 1;
        }
        children
    }

    /// Builds the tables of `c`, or nothing where some node borders more than
    /// two blocks.
    pub fn build(c: &Aerodrome) -> (r: Option<Tables>)
        requires
            c.wf_static(),
        ensures
            r is Some <==> c.wf(),
            r matches Some(t) ==> t.matches(*c),
    {
        let n_nodes = c.nodes.len();
        let mut borders: Vec<u8> = Vec::new();
        let mut node_blocks: Vec<(usize, usize)> = Vec::new();
        let mut node_conns: Vec<(Vec<(usize, bool)>, Vec<(usize, bool)>)> = Vec::new();
        let mut i: usize = 0;
        while i < n_nodes
            invariant
                i <= n_nodes,
                borders.len() == i,
                node_blocks.len() == i,
                node_conns.len() == i,
                forall|n: int| 0 <= n < i ==> #[trigger] borders[n] == 0,
                forall|n: int| 0 <= n < i ==> #[trigger] node_blocks[n] == (0usize, 0usize),
                forall|n: int|
                    0 <= n < i ==> (#[trigger] node_conns[n]).0@ == Seq::<(usize, bool)>::empty()
                        && node_conns[n].1@ == Seq::<(usize, bool)>::empty(),
            decreases n_nodes - i,
        {
            borders.push(0);
            node_blocks.push((0, 0));
            node_conns.push((Vec::new(), Vec::new()));
            i += 1;
        }
        let mut b: usize = 0;
        while b < c.blocks.len()
            invariant
                c.wf_static(),
                n_nodes == c.nodes.len(),
                b <= c.blocks.len(),
                borders.len() == n_nodes,
                node_blocks.len() == n_nodes,
                node_conns.len() == n_nodes,
                forall|n: usize|
                    n < n_nodes ==> (#[trigger] borders[n as int]) as int == borders_upto(
                        c.blocks@,
                        b as int,
                        n,
                    ).len(),
                forall|n: usize| n < n_nodes ==> (#[trigger] borders[n as int]) <= 2,
                forall|n: usize|
                    n < n_nodes ==> {
                        let s = slots(borders_upto(c.blocks@, b as int, n));
                        (#[trigger] node_blocks[n as int]).0 == s.0 && node_blocks[n as int].1
                            == s.1
                    },
                forall|n: usize|
                    n < n_nodes ==> {
                        let bs = borders_upto(c.blocks@, b as int, n);
                        (#[trigger] node_conns[n as int]).0@ == side_conns(*c, bs, n, 0)
                            && node_conns[n as int].1@ == side_conns(*c, bs, n, 1)
                    },
            decreases c.blocks.len() - b,
        {
            let conns = Tables::connections(c, b, &borders);
            let nodes = &c.blocks[b].nodes;
            let mut pos: usize = 0;
            while pos < nodes.len()
                invariant
                    c.wf_static(),
                    n_nodes == c.nodes.len(),
                    b < c.blocks.len(),
                    *nodes == c.blocks[b as int].nodes,
                    pos <= nodes.len(),
                    conns.len() == nodes.len(),
                    forall|i: int|
                        0 <= i < conns.len() ==> #[trigger] conns[i] == (
                            nodes[i],
                            borders_upto(c.blocks@, b as int, nodes[i]).len() > 0,
                        ),
                    borders.len() == n_nodes,
                    node_blocks.len() == n_nodes,
                    node_conns.len() == n_nodes,
                    forall|n: usize|
                        n < n_nodes ==> (#[trigger] borders[n as int]) as int == (borders_upto(
                            c.blocks@,
                            b as int,
                            n,
                        ) + borders_in(nodes@, pos as int, b as int, n)).len(),
                    forall|n: usize| n < n_nodes ==> (#[trigger] borders[n as int]) <= 2,
                    forall|n: usize|
                        n < n_nodes ==> {
                            let s = slots(
                                borders_upto(c.blocks@, b as int, n) + borders_in(
                                    nodes@,
                                    pos as int,
                                    b as int,
                                    n,
                                ),
                            );
                            (#[trigger] node_blocks[n as int]).0 == s.0 && node_blocks[n as int].1
                                == s.1
                        },
                    forall|n: usize|
                        n < n_nodes ==> {
                            let bs = borders_upto(c.blocks@, b as int, n) + borders_in(
                                nodes@,
                                pos as int,
                                b as int,
                                n,
                            );
                            (#[trigger] node_conns[n as int]).0@ == side_conns(*c, bs, n, 0)
                                && node_conns[n as int].1@ == side_conns(*c, bs, n, 1)
                        },
                decreases nodes.len() - pos,
            {
                let n = nodes[pos];
                assert(c.blocks[b as int].nodes[pos as int] < c.nodes.len());
                let k = borders[n];
                let ghost cur = borders_upto(c.blocks@, b as int, n) + borders_in(
                    nodes@,
                    pos as int,
                    b as int,
                    n,
                );
                if k >= 2 {
                    proof {
                        // a third border: the whole list is longer still
                        lemma_borders_in_grow(nodes@, pos as int + 1, nodes.len() as int, b as int, n);
                        lemma_borders_grow(*c, b as int + 1, c.blocks.len() as int, n);
                        assert(c.borders(n).len() > 2);
                    }
                    return None;
                }
                let filtered = Tables::filter(c, b, &conns, n);
                let ghost old_blocks = node_blocks@;
                let ghost old_conns = node_conns@;
                let ghost old_borders = borders@;
                let first = if k == 0 {
                    b
                } else {
                    node_blocks[n].0
                };
                node_blocks[n] = (first, b);
                let mut pair: (Vec<(usize, bool)>, Vec<(usize, bool)>) = (Vec::new(), Vec::new());
                std::mem::swap(&mut pair, &mut node_conns[n]);
                if k == 0 {
                    pair.0 = filtered;
                } else {
                    pair.1 = filtered;
                }
                node_conns[n] = pair;
                borders[n] = k + 1;
                proof {
                    assert forall|m: usize| m < n_nodes implies {
                        let bs = borders_upto(c.blocks@, b as int, m) + borders_in(
                            nodes@,
                            pos as int + 1,
                            b as int,
                            m,
                        );
                        let s = slots(bs);
                        &&& (#[trigger] borders[m as int]) as int == bs.len()
                        &&& borders[m as int] <= 2
                        &&& node_blocks[m as int].0 == s.0
                        &&& node_blocks[m as int].1 == s.1
                        &&& node_conns[m as int].0@ == side_conns(*c, bs, m, 0)
                        &&& node_conns[m as int].1@ == side_conns(*c, bs, m, 1)
                    } by {
                        let was = borders_upto(c.blocks@, b as int, m) + borders_in(
                            nodes@,
                            pos as int,
                            b as int,
                            m,
                        );
                        if m == n {
                            let bs = was.push(b as int);
                            assert(borders_upto(c.blocks@, b as int, m) + borders_in(
                                nodes@,
                                pos as int + 1,
                                b as int,
                                m,
                            ) =~= bs);
                            assert(old_borders[m as int] as int == was.len());
                            assert(old_blocks[m as int].0 == slots(was).0);
                        } else {
                            assert(borders[m as int] == old_borders[m as int]);
                            assert(node_blocks[m as int] == old_blocks[m as int]);
                            assert(node_conns[m as int] == old_conns[m as int]);
                        }
                    }
                }
                pos += 1;
            }
            b += 1;
        }
        let children = Tables::kinship(c);
        proof {
            assert forall|n: usize| n < c.nodes.len() implies (#[trigger] c.borders(n)).len()
                <= 2 by {
                assert(borders[n as int] <= 2);
            }
        }
        Some(Tables { node_blocks, node_conns, children })
    }
}

/// The slots of a node are blocks, or block 0 where it borders none.
pub proof fn lemma_slots_in_range(c: Aerodrome, n: usize)
    ensures
        slots(c.borders(n)) == (0int, 0int) || (0 <= slots(c.borders(n)).0 < c.blocks.len() && 0
            <= slots(c.borders(n)).1 < c.blocks.len()),
{
    lemma_borders_in_range(c, c.blocks.len() as int, n);
    let bs = c.borders(n);
    if bs.len() > 0 {
        assert(0 <= bs[0] < c.blocks.len());
        assert(0 <= bs[bs.len() - 1] < c.blocks.len());
    }
}

/// A node listed by a block borders some block.
pub proof fn lemma_member_has_border(c: Aerodrome, b: int, k: int)
    requires
        0 <= b < c.blocks.len(),
        0 <= k < c.blocks[b].nodes.len(),
    ensures
        c.borders(c.blocks[b].nodes[k]).len() > 0,
{
    let n = c.blocks[b].nodes[k];
    let nodes = c.blocks[b].nodes@;
    lemma_borders_in_grow(nodes, k + 1, nodes.len() as int, b, n);
    assert(borders_in(nodes, k + 1, b, n).len() > 0);
    lemma_borders_grow(c, b + 1, c.blocks.len() as int, n);
}

/// Within one block, borders only grow with the number of nodes looked at.
pub proof fn lemma_borders_in_grow(nodes: Seq<usize>, a: int, len: int, b: int, n: usize)
    requires
        0 <= a <= len,
    ensures
        borders_in(nodes, a, b, n).len() <= borders_in(nodes, len, b, n).len(),
    decreases len - a,
{
    if a < len {
        lemma_borders_in_grow(nodes, a, len - 1, b, n);
    }
}

/// Every connection through a block leads to a node that the block lists.
pub proof fn lemma_conns_members(c: Aerodrome, b: int, n: usize, len: int)
    requires
        0 <= b < c.blocks.len(),
        0 <= len <= c.blocks[b].nodes.len(),
    ensures
        forall|i: int|
            0 <= i < conns_upto(c, b, n, len).len() ==> c.blocks[b].nodes@.contains(
                (#[trigger] conns_upto(c, b, n, len)[i]).0,
            ),
    decreases len,
{
    if len > 0 {
        lemma_conns_members(c, b, n, len - 1);
        let all = conns_upto(c, b, n, len);
        let head = conns_upto(c, b, n, len - 1);
        assert forall|i: int| 0 <= i < all.len() implies c.blocks[b].nodes@.contains(
            (#[trigger] all[i]).0,
        ) by {
            if i < head.len() {
                assert(all[i] == head[i]);
            } else {
                assert(all[i].0 == c.blocks[b].nodes@[len - 1]);
            }
        }
    }
}

/// A block that is counted among the borders of a node within one listing
/// lists the node.
pub proof fn lemma_borders_in_member(nodes: Seq<usize>, len: int, b: int, n: usize)
    requires
        0 <= len <= nodes.len(),
        borders_in(nodes, len, b, n).len() > 0,
    ensures
        nodes.contains(n),
    decreases len,
{
    if len > 0 {
        if nodes[len - 1] == n {
            assert(nodes[len - 1] == n);
        } else {
            lemma_borders_in_member(nodes, len - 1, b, n);
        }
    }
}

/// Every border of a node is a block that lists the node.
pub proof fn lemma_border_lists_node(c: Aerodrome, upto: int, n: usize, i: int)
    requires
        0 <= upto <= c.blocks.len(),
        0 <= i < borders_upto(c.blocks@, upto, n).len(),
    ensures
        0 <= borders_upto(c.blocks@, upto, n)[i] < upto,
        c.blocks[borders_upto(c.blocks@, upto, n)[i]].nodes@.contains(n),
    decreases upto,
{
    lemma_borders_in_range(c, upto, n);
    if upto > 0 {
        let head = borders_upto(c.blocks@, upto - 1, n);
        let nodes = c.blocks[upto - 1].nodes@;
        let tail = borders_in(nodes, nodes.len() as int, upto - 1, n);
        assert(borders_upto(c.blocks@, upto, n) == head + tail);
        if i < head.len() {
            lemma_border_lists_node(c, upto - 1, n, i);
            assert((head + tail)[i] == head[i]);
        } else {
            lemma_borders_in(nodes, nodes.len() as int, upto - 1, n);
            assert((head + tail)[i] == tail[i - head.len()]);
            lemma_borders_in_member(nodes, nodes.len() as int, upto - 1, n);
        }
    }
}

/// No connection through a block is one of the pairs that the block
/// forbids.
pub proof fn lemma_conns_allowed(c: Aerodrome, b: int, n: usize, len: int)
    requires
        0 <= b < c.blocks.len(),
        0 <= len <= c.blocks[b].nodes.len(),
    ensures
        forall|i: int|
            0 <= i < conns_upto(c, b, n, len).len() ==> !lists_pair(
                c.blocks[b].non_routes@,
                n,
                (#[trigger] conns_upto(c, b, n, len)[i]).0,
            ),
    decreases len,
{
    if len > 0 {
        lemma_conns_allowed(c, b, n, len - 1);
        let all = conns_upto(c, b, n, len);
        let head = conns_upto(c, b, n, len - 1);
        assert forall|i: int| 0 <= i < all.len() implies !lists_pair(
            c.blocks[b].non_routes@,
            n,
            (#[trigger] all[i]).0,
        ) by {
            if i < head.len() {
                assert(all[i] == head[i]);
            }
        }
    }
}

} // verus!
