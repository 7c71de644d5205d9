//! What the configuration compiler works out of a block's geometry: which
//! pairs of boundary nodes no route connects, and which routes pass over
//! each edge.
//!
//! A block is described by the edges that leave each boundary node and by
//! its joins: the vertices inside the block, each with the edges that meet
//! there, grouped by sector. From an edge one may go on to the edges of the
//! other sectors of a vertex it ends in.

use crate::config::{BlockCondition, EdgeCondition, NodeCondition, ResetCondition};
use crate::text::{split, split_all, texts};
use std::collections::HashMap;
use vstd::prelude::*;
use vstd::string::*;

verus! {

/// A list of identifiers as a description names them: `a+b+c`. The empty
/// list stands for every identifier that no other list names.
#[derive(Clone, Debug)]
pub struct IdList(pub Vec<String>);

impl IdList {
    /// The list that stands for everything else.
    pub fn wildcard() -> (r: IdList)
        ensures
            r.0.len() == 0,
    {
        IdList(Vec::new())
    }

    /// Whether the list names `id`.
    pub fn contains(&self, id: &String) -> (r: bool)
        ensures
            r == exists|i: int| 0 <= i < self.0.len() && (#[trigger] self.0[i])@ == id@,
    {
        let mut i: usize = 0;
        while i < self.0.len()
            invariant
                i <= self.0.len(),
                forall|j: int| 0 <= j < i ==> (#[trigger] self.0[j])@ != id@,
            decreases self.0.len() - i,
        {
            if self.0[i] == *id {
                return true;
            }
            i += 1;
        }
        false
    }
}

/// The first of the lists from `from` on that names `id`.
pub open spec fn first_naming<T>(rules: Seq<(IdList, T)>, id: Seq<char>, from: int) -> Option<int>
    decreases rules.len() - from,
{
    if from < 0 || from >= rules.len() {
        None
    } else if exists|k: int| 0 <= k < rules[from].0.0.len() && (#[trigger] rules[from].0.0[k])@ == id {
        Some(from)
    } else {
        first_naming(rules, id, from + 1)
    }
}

/// The first wildcard among the lists from `from` on.
pub open spec fn first_wildcard<T>(rules: Seq<(IdList, T)>, from: int) -> Option<int>
    decreases rules.len() - from,
{
    if from < 0 || from >= rules.len() {
        None
    } else if rules[from].0.0.len() == 0 {
        Some(from)
    } else {
        first_wildcard(rules, from + 1)
    }
}

/// The rule that a profile gives the item `id`: that of the first list that
/// names it, else that of the first wildcard list, else `fallback`.
pub open spec fn rule_of<T>(rules: Seq<(IdList, T)>, id: Seq<char>, fallback: T) -> T {
    match first_naming(rules, id, 0) {
        Some(i) => rules[i].1,
        None => match first_wildcard(rules, 0) {
            Some(i) => rules[i].1,
            None => fallback,
        },
    }
}

/// Picks the rule that a profile gives the item `id`.
pub fn rule_for<T: Copy>(rules: &Vec<(IdList, T)>, id: &String, fallback: T) -> (r: T)
    ensures
        r == rule_of(rules@, id@, fallback),
{
    let mut i: usize = 0;
    while i < rules.len()
        invariant
            i <= rules.len(),
            first_naming(rules@, id@, 0) == first_naming(rules@, id@, i as int),
        decreases rules.len() - i,
    {
        if rules[i].0.contains(id) {
            return rules[i].1;
        }
        i += 1;
    }
    let mut i: usize = 0;
    while i < rules.len()
        invariant
            i <= rules.len(),
            first_naming(rules@, id@, 0) is None,
            first_wildcard(rules@, 0) == first_wildcard(rules@, i as int),
        decreases rules.len() - i,
    {
        if rules[i].0.0.len() == 0 {
            return rules[i].1;
        }
        i += 1;
    }
    fallback
}

/// The entries of a preset for the first `len` groups: every index of a
/// group with the value of the group, the groups in order.
pub open spec fn spread<T>(groups: Seq<(Vec<usize>, T)>, len: int) -> Seq<(usize, T)>
    decreases len,
{
    if len <= 0 {
        Seq::empty()
    } else {
        spread(groups, len - 1) + Seq::new(
            groups[len - 1].0@.len(),
            |k: int| (groups[len - 1].0@[k], groups[len - 1].1),
        )
    }
}

/// Writes out the entries of a preset: one for every index of every group.
pub fn expand_preset<T: Copy>(groups: &Vec<(Vec<usize>, T)>) -> (r: Vec<(usize, T)>)
    ensures
        r@ == spread(groups@, groups@.len() as int),
{
    let mut r: Vec<(usize, T)> = Vec::new();
    let mut i: usize = 0;
    while i < groups.len()
        invariant
            i <= groups.len(),
            r@ == spread(groups@, i as int),
        decreases groups.len() - i,
    {
        let ghost before = r@;
        let ghost row = Seq::new(
            groups@[i as int].0@.len(),
            |k: int| (groups@[i as int].0@[k], groups@[i as int].1),
        );
        let indices = &groups[i].0;
        let value = groups[i].1;
        let mut k: usize = 0;
        while k < indices.len()
            invariant
                i < groups.len(),
                *indices == groups@[i as int].0,
                value == groups@[i as int].1,
                k <= indices.len(),
                row == Seq::new(
                    groups@[i as int].0@.len(),
                    |k: int| (groups@[i as int].0@[k], groups@[i as int].1),
                ),
                r@ == before + row.take(k as int),
            decreases indices.len() - k,
        {
            r.push((indices[k], value));
            assert(r@ =~= before + row.take(k as int + 1));
            k += 1;
        }
        assert(row.take(indices.len() as int) =~= row);
        i += 1;
    }
    r
}

/// The identifiers that a list text names.
pub open spec fn listed_ids(s: Seq<char>) -> Seq<Seq<char>> {
    if s.len() == 0 {
        Seq::empty()
    } else {
        split_all(s, "+"@)
    }
}

/// Reads a list of identifiers.
pub fn id_list(s: &str) -> (r: IdList)
    ensures
        texts(r.0@) == listed_ids(s@),
{
    if s.unicode_len() == 0 {
        let r = IdList(Vec::new());
        assert(texts(r.0@) =~= Seq::<Seq<char>>::empty());
        r
    } else {
        IdList(split(s, "+"))
    }
}

/// The reset of a cell from the seconds that a description gives.
pub fn reset_of(timer: Option<u32>) -> (r: ResetCondition)
    ensures
        r == match timer {
            Some(t) => ResetCondition::TimeSecs(t),
            None => ResetCondition::Never,
        },
{
    match timer {
        Some(t) => ResetCondition::TimeSecs(t),
        None => ResetCondition::Never,
    }
}

/// How a description drives a node.
#[derive(Clone, Copy, Debug)]
pub enum NodeRule {
    Fixed { state: bool },
    Direct { timer: Option<u32> },
    Router,
}

impl NodeRule {
    /// The condition that the rule compiles to.
    pub fn convert(self) -> (r: NodeCondition)
        ensures
            r == match self {
                NodeRule::Fixed { state } => NodeCondition::Fixed(state),
                NodeRule::Direct { timer } => NodeCondition::Direct(
                    match timer {
                        Some(t) => ResetCondition::TimeSecs(t),
                        None => ResetCondition::Never,
                    },
                ),
                NodeRule::Router => NodeCondition::Router,
            },
    {
        match self {
            NodeRule::Fixed { state } => NodeCondition::Fixed(state),
            NodeRule::Direct { timer } => NodeCondition::Direct(reset_of(timer)),
            NodeRule::Router => NodeCondition::Router,
        }
    }
}

impl Default for NodeRule {
    fn default() -> (r: Self)
        ensures
            r matches NodeRule::Fixed { state: false },
    {
        NodeRule::Fixed { state: false }
    }
}

/// How a description drives a block.
#[derive(Clone, Copy, Debug)]
pub struct BlockRule {
    pub timer: Option<u32>,
}

impl BlockRule {
    /// The condition that the rule compiles to.
    pub fn convert(self) -> (r: BlockCondition)
        ensures
            r == BlockCondition(
                match self.timer {
                    Some(t) => ResetCondition::TimeSecs(t),
                    None => ResetCondition::Never,
                },
            ),
    {
        BlockCondition(reset_of(self.timer))
    }
}

impl Default for BlockRule {
    fn default() -> (r: Self)
        ensures
            r.timer is None,
    {
        BlockRule { timer: None }
    }
}

/// How a description drives an edge; a direct edge names its node by index.
#[derive(Clone, Copy, Debug)]
pub enum EdgeRule {
    Fixed { state: bool },
    Direct { node: usize },
    Router,
}

impl EdgeRule {
    /// The condition that the rule compiles to. `router` holds the block of
    /// the edge and the routes over it, where the edge lies in a block; a
    /// router edge outside of every block is fixed dark.
    pub fn convert(self, router: Option<(usize, Vec<(usize, usize)>)>) -> (r: EdgeCondition)
        ensures
            match self {
                EdgeRule::Fixed { state } => r == EdgeCondition::Fixed(state),
                EdgeRule::Direct { node } => r == EdgeCondition::Direct(node),
                EdgeRule::Router => match router {
                    Some((block, routes)) => r == (EdgeCondition::Router { block, routes }),
                    None => r == EdgeCondition::Fixed(false),
                },
            },
    {
        match self {
            EdgeRule::Fixed { state } => EdgeCondition::Fixed(state),
            EdgeRule::Direct { node } => EdgeCondition::Direct(node),
            EdgeRule::Router => match router {
                Some((block, routes)) => EdgeCondition::Router { block, routes },
                None => EdgeCondition::Fixed(false),
            },
        }
    }
}

impl Default for EdgeRule {
    fn default() -> (r: Self)
        ensures
            r matches EdgeRule::Fixed { state: false },
    {
        EdgeRule::Fixed { state: false }
    }
}

/// The keys of an association list.
pub open spec fn keys_of<V>(m: Seq<(usize, V)>) -> Seq<usize> {
    Seq::new(m.len(), |i: int| m[i].0)
}

/// The first position from `from` on where `keys` holds `k`.
pub open spec fn key_at(keys: Seq<usize>, k: usize, from: int) -> Option<int>
    decreases keys.len() - from,
{
    if from < 0 || from >= keys.len() {
        None
    } else if keys[from] == k {
        Some(from)
    } else {
        key_at(keys, k, from + 1)
    }
}

/// Where a key is found, it is found in range.
pub proof fn lemma_key_at(keys: Seq<usize>, k: usize, from: int)
    requires
        0 <= from,
    ensures
        match key_at(keys, k, from) {
            Some(i) => from <= i < keys.len() && keys[i] == k,
            None => forall|j: int| from <= j < keys.len() ==> keys[j] != k,
        },
    decreases keys.len() - from,
{
    if from < keys.len() && keys[from] != k {
        lemma_key_at(keys, k, from + 1);
    }
}

/// The value stored under `k`, the first where there are several.
pub open spec fn get<V>(m: Seq<(usize, V)>, k: usize) -> Option<V> {
    match key_at(keys_of(m), k, 0) {
        Some(i) => Some(m[i].1),
        None => None,
    }
}

/// The position of the first entry under `k`.
pub fn find_key<V>(m: &Vec<(usize, V)>, k: usize) -> (r: Option<usize>)
    ensures
        match r {
            Some(i) => key_at(keys_of(m@), k, 0) == Some(i as int) && i < m.len() && m[i as int].0
                == k,
            None => key_at(keys_of(m@), k, 0) is None,
        },
{
    let mut i: usize = 0;
    while i < m.len()
        invariant
            i <= m.len(),
            key_at(keys_of(m@), k, 0) == key_at(keys_of(m@), k, i as int),
        decreases m.len() - i,
    {
        if m[i].0 == k {
            return Some(i);
        }
        i += 1;
    }
    None
}

/// The route lists of `m` as sequences.
pub open spec fn routes_view(m: Seq<(usize, Vec<(usize, usize)>)>) -> Seq<
    (usize, Seq<(usize, usize)>),
> {
    Seq::new(m.len(), |i: int| (m[i].0, m[i].1@))
}

/// The edges of the first `len` sectors of `vertex` but sector `i`, in
/// order.
pub open spec fn others(vertex: Seq<Vec<usize>>, i: int, len: int) -> Seq<usize>
    decreases len,
{
    if len <= 0 {
        Seq::empty()
    } else if len - 1 == i {
        others(vertex, i, len - 1)
    } else {
        others(vertex, i, len - 1) + vertex[len - 1]@
    }
}

/// Where each edge leads on: at the first vertex it was met at, and at the
/// last other one.
pub struct Conns {
    pub first: Map<usize, Seq<usize>>,
    pub second: Map<usize, Seq<usize>>,
}

/// The connections after the first `len` edges of a sector were linked to
/// `onward`.
pub open spec fn link_sector(c: Conns, sector: Seq<usize>, onward: Seq<usize>, len: int) -> Conns
    decreases len,
{
    if len <= 0 {
        c
    } else {
        let p = link_sector(c, sector, onward, len - 1);
        let e = sector[len - 1];
        if p.first.contains_key(e) {
            Conns { second: p.second.insert(e, onward), ..p }
        } else {
            Conns { first: p.first.insert(e, onward), ..p }
        }
    }
}

/// The connections after the first `len` sectors of a vertex were linked.
pub open spec fn link_vertex(c: Conns, vertex: Seq<Vec<usize>>, len: int) -> Conns
    decreases len,
{
    if len <= 0 {
        c
    } else {
        let sector = vertex[len - 1]@;
        link_sector(
            link_vertex(c, vertex, len - 1),
            sector,
            others(vertex, len - 1, vertex.len() as int),
            sector.len() as int,
        )
    }
}

/// The connections of the first `len` vertices.
pub open spec fn link_all(joins: Seq<Vec<Vec<usize>>>, len: int) -> Conns
    decreases len,
{
    if len <= 0 {
        Conns { first: Map::empty(), second: Map::empty() }
    } else {
        link_vertex(link_all(joins, len - 1), joins[len - 1]@, joins[len - 1]@.len() as int)
    }
}

/// The edges of `list`, each reached from `edge`.
pub open spec fn reached_from(list: Seq<usize>, edge: usize) -> Seq<(usize, Option<usize>)> {
    Seq::new(list.len(), |i: int| (list[i], Some(edge)))
}

/// Where the search goes on from `edge`, reached from `last`: over its first
/// vertex unless it came from there, then over its second.
pub open spec fn onward(c: Conns, edge: usize, last: Option<usize>) -> Seq<(usize, Option<usize>)> {
    if !c.first.contains_key(edge) {
        Seq::empty()
    } else if last is None || !c.first[edge].contains(last.unwrap()) {
        reached_from(c.first[edge], edge)
    } else if c.second.contains_key(edge) {
        reached_from(c.second[edge], edge)
    } else {
        Seq::empty()
    }
}

/// The edges from `edge` back to where the search started, at most `fuel`
/// of them.
pub open spec fn trail(prev: Map<usize, usize>, edge: usize, fuel: nat) -> Seq<usize>
    decreases fuel,
{
    if fuel == 0 {
        Seq::empty()
    } else if prev.contains_key(edge) {
        seq![edge] + trail(prev, prev[edge], (fuel - 1) as nat)
    } else {
        seq![edge]
    }
}

/// The state of the search for a route between two nodes.
pub struct Hunt {
    pub queue: Seq<(usize, Option<usize>)>,
    pub prev: Map<usize, usize>,
}

/// The outcome of a search within `fuel` steps: the edges of the route that
/// reaches an edge of `target` first, breadth first, or nothing.
pub open spec fn hunt(c: Conns, target: Seq<usize>, h: Hunt, fuel: nat) -> Option<Seq<usize>>
    decreases fuel,
{
    if fuel == 0 || h.queue.len() == 0 {
        None
    } else {
        let (edge, last) = h.queue[0];
        let rest = h.queue.drop_first();
        if last is Some && h.prev.contains_key(edge) {
            hunt(c, target, Hunt { queue: rest, ..h }, (fuel - 1) as nat)
        } else {
            let prev = match last {
                Some(l) => h.prev.insert(edge, l),
                None => h.prev,
            };
            if target.contains(edge) {
                Some(trail(prev, edge, prev.len() + 1))
            } else {
                hunt(
                    c,
                    target,
                    Hunt { queue: rest + onward(c, edge, last), prev },
                    (fuel - 1) as nat,
                )
            }
        }
    }
}

/// The routes per edge after `pair` was noted on the first `len` edges of a
/// route.
pub open spec fn noted(
    conditions: Seq<(usize, Seq<(usize, usize)>)>,
    route: Seq<usize>,
    pair: (usize, usize),
    len: int,
) -> Seq<(usize, Seq<(usize, usize)>)>
    decreases len,
{
    if len <= 0 {
        conditions
    } else {
        let before = noted(conditions, route, pair, len - 1);
        let e = route[len - 1];
        match key_at(keys_of(before), e, 0) {
            Some(i) => before.update(i, (e, before[i].1.push(pair))),
            None => before.push((e, seq![pair])),
        }
    }
}

/// What the compiler has worked out.
pub struct ResolvedView {
    pub non_routes: Seq<(usize, usize)>,
    pub conditions: Seq<(usize, Seq<(usize, usize)>)>,
}

/// The edges that leave node `key`, none where the node is not listed.
pub open spec fn edges_of(edges: Seq<(usize, Vec<usize>)>, key: usize) -> Seq<usize> {
    match get(edges, key) {
        Some(list) => list@,
        None => Seq::empty(),
    }
}

/// The result after the pair of the nodes at positions `a` and `b` was
/// looked at: a pair in ascending order is searched, and either noted on
/// the edges of its route or listed as no route.
pub open spec fn resolve_pair(
    edges: Seq<(usize, Vec<usize>)>,
    c: Conns,
    r: ResolvedView,
    a: int,
    b: int,
) -> ResolvedView {
    let (node1, node2) = (edges[a].0, edges[b].0);
    if node1 >= node2 {
        r
    } else {
        let start = Seq::new(
            edges_of(edges, node1).len(),
            |i: int| (edges_of(edges, node1)[i], None::<usize>),
        );
        match hunt(
            c,
            edges_of(edges, node2),
            Hunt { queue: start, prev: Map::empty() },
            usize::MAX as nat,
        ) {
            Some(route) => ResolvedView {
                conditions: noted(r.conditions, route, (node1, node2), route.len() as int),
                ..r
            },
            None => ResolvedView { non_routes: r.non_routes.push((node1, node2)), ..r },
        }
    }
}

/// The result after node `a` was paired with the first `len` nodes.
pub open spec fn resolve_row(
    edges: Seq<(usize, Vec<usize>)>,
    c: Conns,
    r: ResolvedView,
    a: int,
    len: int,
) -> ResolvedView
    decreases len,
{
    if len <= 0 {
        r
    } else {
        resolve_pair(edges, c, resolve_row(edges, c, r, a, len - 1), a, len - 1)
    }
}

/// The result after the first `len` nodes were paired with all nodes.
pub open spec fn resolve_rows(edges: Seq<(usize, Vec<usize>)>, c: Conns, len: int) -> ResolvedView
    decreases len,
{
    if len <= 0 {
        ResolvedView { non_routes: Seq::empty(), conditions: Seq::empty() }
    } else {
        resolve_row(edges, c, resolve_rows(edges, c, len - 1), len - 1, edges.len() as int)
    }
}

/// What the compiler works out of a block with the boundary edges `edges`
/// and the joins `joins`.
pub open spec fn resolved(edges: Seq<(usize, Vec<usize>)>, joins: Seq<Vec<Vec<usize>>>) -> ResolvedView {
    resolve_rows(edges, link_all(joins, joins.len() as int), edges.len() as int)
}

/// What the compiler has worked out of a block: the pairs of nodes that no
/// route connects, and for each edge the pairs whose route passes over it.
#[derive(Debug)]
pub struct Resolved {
    pub non_routes: Vec<(usize, usize)>,
    pub conditions: Vec<(usize, Vec<(usize, usize)>)>,
}

impl View for Resolved {
    type V = ResolvedView;

    open spec fn view(&self) -> ResolvedView {
        ResolvedView {
            non_routes: self.non_routes@,
            conditions: routes_view(self.conditions@),
        }
    }
}

/// Tests whether `x` occurs in `items`.
fn holds(items: &Vec<usize>, x: usize) -> (r: bool)
    ensures
        r == items@.contains(x),
{
    let mut i: usize = 0;
    while i < items.len()
        invariant
            i <= items.len(),
            forall|j: int| 0 <= j < i ==> items@[j] != x,
        decreases items.len() - i,
    {
        if items[i] == x {
            return true;
        }
        i += 1;
    }
    false
}

fn copy_list(list: &Vec<usize>) -> (r: Vec<usize>)
    ensures
        r@ == list@,
{
    let mut r: Vec<usize> = Vec::new();
    let mut i: usize = 0;
    while i < list.len()
        invariant
            i <= list.len(),
            r@ == list@.take(i as int),
        decreases list.len() - i,
    {
        r.push(list[i]);
        assert(r@ =~= list@.take(i as int + 1));
        i += 1;
    }
    assert(list@.take(list.len() as int) =~= list@);
    r
}

/// The edge lists of a table as sequences.
pub open spec fn lists_map(m: Map<usize, Vec<usize>>) -> Map<usize, Seq<usize>> {
    m.map_values(|list: Vec<usize>| list@)
}

fn others_of(vertex: &Vec<Vec<usize>>, i: usize) -> (r: Vec<usize>)
    ensures
        r@ == others(vertex@, i as int, vertex@.len() as int),
{
    let mut r: Vec<usize> = Vec::new();
    let mut j: usize = 0;
    while j < vertex.len()
        invariant
            j <= vertex.len(),
            r@ == others(vertex@, i as int, j as int),
        decreases vertex.len() - j,
    {
        if j != i {
            let sector = &vertex[j];
            let ghost before = r@;
            let mut k: usize = 0;
            while k < sector.len()
                invariant
                    k <= sector.len(),
                    r@ == before + sector@.take(k as int),
                decreases sector.len() - k,
            {
                r.push(sector[k]);
                assert(r@ =~= before + sector@.take(k as int + 1));
                k += 1;
            }
            assert(sector@.take(sector.len() as int) =~= sector@);
        }
        j += 1;
    }
    r
}

/// The two connection tables of a block, as the compiler keeps them.
struct Tables {
    first: HashMap<usize, Vec<usize>>,
    second: HashMap<usize, Vec<usize>>,
}

impl Tables {
    spec fn conns(&self) -> Conns {
        Conns { first: lists_map(self.first@), second: lists_map(self.second@) }
    }
}

fn link(joins: &Vec<Vec<Vec<usize>>>) -> (t: Tables)
    ensures
        t.conns() == link_all(joins@, joins@.len() as int),
{
    broadcast use vstd::std_specs::hash::group_hash_axioms;

    let mut t = Tables { first: HashMap::new(), second: HashMap::new() };
    assert(t.conns().first =~= Map::empty());
    assert(t.conns().second =~= Map::empty());
    let mut v: usize = 0;
    while v < joins.len()
        invariant
            v <= joins.len(),
            t.conns() == link_all(joins@, v as int),
        decreases joins.len() - v,
    {
        let vertex = &joins[v];
        let ghost base = t.conns();
        let mut i: usize = 0;
        while i < vertex.len()
            invariant
                i <= vertex.len(),
                t.conns() == link_vertex(base, vertex@, i as int),
            decreases vertex.len() - i,
        {
            let onward = others_of(vertex, i);
            let sector = &vertex[i];
            let ghost start = t.conns();
            let mut k: usize = 0;
            while k < sector.len()
                invariant
                    k <= sector.len(),
                    t.conns() == link_sector(start, sector@, onward@, k as int),
                decreases sector.len() - k,
            {
                let e = sector[k];
                let ghost before = t;
                let list = copy_list(&onward);
                if t.first.contains_key(&e) {
                    t.second.insert(e, list);
                    assert(lists_map(t.second@) =~= lists_map(before.second@).insert(e, onward@));
                } else {
                    t.first.insert(e, list);
                    assert(lists_map(t.first@) =~= lists_map(before.first@).insert(e, onward@));
                }
                k += 1;
            }
            i += 1;
        }
        v += 1;
    }
    t
}

fn lookup<'a>(m: &'a Vec<(usize, Vec<usize>)>, k: usize) -> (r: Option<&'a Vec<usize>>)
    ensures
        match r {
            Some(list) => get(m@, k) == Some(*list),
            None => get(m@, k) is None,
        },
{
    match find_key(m, k) {
        Some(i) => Some(&m[i].1),
        None => None,
    }
}

fn table_get<'a>(m: &'a HashMap<usize, Vec<usize>>, k: usize) -> (r: Option<&'a Vec<usize>>)
    ensures
        match r {
            Some(list) => lists_map(m@).contains_key(k) && lists_map(m@)[k] == list@,
            None => !lists_map(m@).contains_key(k),
        },
{
    broadcast use vstd::std_specs::hash::group_hash_axioms;

    m.get(&k)
}

fn walk_back(prev: &HashMap<usize, usize>, edge: usize) -> (r: Vec<usize>)
    ensures
        r@ == trail(prev@, edge, prev@.len() + 1),
{
    broadcast use vstd::std_specs::hash::group_hash_axioms;

    let mut r: Vec<usize> = Vec::new();
    let mut at = edge;
    let mut steps: usize = 0;
    let limit = prev.len();
    assert(Seq::<usize>::empty() + trail(prev@, edge, prev@.len() + 1) =~= trail(
        prev@,
        edge,
        prev@.len() + 1,
    ));
    loop
        invariant
            limit == prev@.len(),
            steps <= limit,
            trail(prev@, edge, prev@.len() + 1) == r@ + trail(
                prev@,
                at,
                (prev@.len() + 1 - steps) as nat,
            ),
        decreases limit - steps,
    {
        let ghost before = r@;
        let ghost left = (prev@.len() + 1 - steps) as nat;
        r.push(at);
        match prev.get(&at) {
            Some(p) => {
                let p = *p;
                assert(before + (seq![at] + trail(prev@, p, (left - 1) as nat)) =~= r@ + trail(
                    prev@,
                    p,
                    (left - 1) as nat,
                ));
                if steps == limit {
                    assert(trail(prev@, p, 0) =~= Seq::<usize>::empty());
                    assert(r@ + Seq::<usize>::empty() =~= r@);
                    return r;
                }
                at = p;
                steps += 1;
            },
            None => {
                assert(before + seq![at] =~= r@);
                return r;
            },
        }
    }
}

fn search(t: &Tables, start: &Vec<usize>, target: &Vec<usize>) -> (r: Option<Vec<usize>>)
    ensures
        match r {
            Some(route) => hunt(
                t.conns(),
                target@,
                Hunt { queue: Seq::new(start@.len(), |i: int| (start@[i], None::<usize>)), prev: Map::empty() },
                usize::MAX as nat,
            ) == Some(route@),
            None => hunt(
                t.conns(),
                target@,
                Hunt { queue: Seq::new(start@.len(), |i: int| (start@[i], None::<usize>)), prev: Map::empty() },
                usize::MAX as nat,
            ) is None,
        },
{
    let mut queue: std::collections::VecDeque<(usize, Option<usize>)> =
        std::collections::VecDeque::new();
    let mut i: usize = 0;
    while i < start.len()
        invariant
            i <= start.len(),
            queue@.len() == i,
            forall|j: int| 0 <= j < i ==> queue@[j] == (start@[j], None::<usize>),
        decreases start.len() - i,
    {
        queue.push_back((start[i], None));
        i += 1;
    }
    broadcast use vstd::std_specs::hash::group_hash_axioms;

    let mut prev: HashMap<usize, usize> = HashMap::new();
    let mut fuel: usize = usize::MAX;
    let ghost goal = hunt(
        t.conns(),
        target@,
        Hunt { queue: Seq::new(start@.len(), |i: int| (start@[i], None::<usize>)), prev: Map::empty() },
        usize::MAX as nat,
    );
    assert(queue@ =~= Seq::new(start@.len(), |i: int| (start@[i], None::<usize>)));
    assert(prev@ =~= Map::<usize, usize>::empty());
    while fuel > 0 && queue.len() > 0
        invariant
            goal == hunt(
                t.conns(),
                target@,
                Hunt {
                    queue: Seq::new(start@.len(), |i: int| (start@[i], None::<usize>)),
                    prev: Map::empty(),
                },
                usize::MAX as nat,
            ),
            goal == hunt(t.conns(), target@, Hunt { queue: queue@, prev: prev@ }, fuel as nat),
        decreases fuel,
    {
        let ghost before = queue@;
        let (edge, last) = queue.pop_front().unwrap();
        assert(queue@ =~= before.drop_first());
        fuel -= 1;
        match last {
            Some(l) => {
                if prev.contains_key(&edge) {
                    continue ;
                }
                prev.insert(edge, l);
            },
            None => {},
        }
        if holds(target, edge) {
            return Some(walk_back(&prev, edge));
        }
        let ghost rest = queue@;
        let ghost next = onward(t.conns(), edge, last);
        let list: Option<&Vec<usize>> = match table_get(&t.first, edge) {
            None => None,
            Some(c1) => {
                let came_from_here = match last {
                    Some(l) => holds(c1, l),
                    None => false,
                };
                if !came_from_here {
                    Some(c1)
                } else {
                    table_get(&t.second, edge)
                }
            },
        };
        match list {
            Some(list) => {
                assert(next == reached_from(list@, edge));
                let mut k: usize = 0;
                while k < list.len()
                    invariant
                        k <= list.len(),
                        queue@ == rest + reached_from(list@, edge).take(k as int),
                    decreases list.len() - k,
                {
                    queue.push_back((list[k], Some(edge)));
                    assert(queue@ =~= rest + reached_from(list@, edge).take(k as int + 1));
                    k += 1;
                }
                assert(reached_from(list@, edge).take(list.len() as int) =~= reached_from(
                    list@,
                    edge,
                ));
            },
            None => {
                assert(next =~= Seq::empty());
                assert(queue@ =~= rest + next);
            },
        }
    }
    None
}

fn note(conditions: &mut Vec<(usize, Vec<(usize, usize)>)>, route: &Vec<usize>, pair: (usize, usize))
    ensures
        routes_view(final(conditions)@) == noted(
            routes_view(old(conditions)@),
            route@,
            pair,
            route@.len() as int,
        ),
{
    let mut i: usize = 0;
    while i < route.len()
        invariant
            i <= route.len(),
            routes_view(conditions@) == noted(routes_view(old(conditions)@), route@, pair, i as int),
        decreases route.len() - i,
    {
        let e = route[i];
        let ghost before = conditions@;
        assert(keys_of(routes_view(conditions@)) =~= keys_of(conditions@));
        match find_key(conditions, e) {
            Some(at) => {
                let mut entry: (usize, Vec<(usize, usize)>) = (e, Vec::new());
                std::mem::swap(&mut entry, &mut conditions[at]);
                entry.1.push(pair);
                conditions[at] = entry;
                assert(routes_view(conditions@) =~= routes_view(before).update(
                    at as int,
                    (e, routes_view(before)[at as int].1.push(pair)),
                ));
            },
            None => {
                let mut list: Vec<(usize, usize)> = Vec::new();
                list.push(pair);
                conditions.push((e, list));
                assert(routes_view(conditions@) =~= routes_view(before).push((e, seq![pair])));
            },
        }
        i += 1;
    }
}

/// Works out the routes of a block. `edges` lists for each boundary node the
/// edges that leave it; `joins` lists for each vertex inside the block its
/// sectors, each with the edges that meet there.
pub fn resolve_routes(edges: &Vec<(usize, Vec<usize>)>, joins: &Vec<Vec<Vec<usize>>>) -> (r:
    Resolved)
    ensures
        r@ == resolved(edges@, joins@),
{
    let t = link(joins);
    let empty: Vec<usize> = Vec::new();
    let mut r = Resolved { non_routes: Vec::new(), conditions: Vec::new() };
    assert(r@.conditions =~= Seq::empty());
    let mut a: usize = 0;
    while a < edges.len()
        invariant
            a <= edges.len(),
            empty@ == Seq::<usize>::empty(),
            t.conns() == link_all(joins@, joins@.len() as int),
            r@ == resolve_rows(edges@, t.conns(), a as int),
        decreases edges.len() - a,
    {
        let ghost base = r@;
        let mut b: usize = 0;
        while b < edges.len()
            invariant
                a < edges.len(),
                b <= edges.len(),
                empty@ == Seq::<usize>::empty(),
                r@ == resolve_row(edges@, t.conns(), base, a as int, b as int),
            decreases edges.len() - b,
        {
            let node1 = edges[a].0;
            let node2 = edges[b].0;
            if node1 < node2 {
                let start = match lookup(edges, node1) {
                    Some(list) => list,
                    None => &empty,
                };
                let target = match lookup(edges, node2) {
                    Some(list) => list,
                    None => &empty,
                };
                assert(start@ == edges_of(edges@, node1));
                assert(target@ == edges_of(edges@, node2));
                match search(&t, start, target) {
                    Some(route) => {
                        note(&mut r.conditions, &route, (node1, node2));
                    },
                    None => {
                        r.non_routes.push((node1, node2));
                    },
                }
            }
            b += 1;
        }
        a += 1;
    }
    r
}

/// Whether node `n` is one of the boundary nodes.
pub open spec fn listed(edges: Seq<(usize, Vec<usize>)>, n: usize) -> bool {
    exists|i: int| 0 <= i < edges.len() && (#[trigger] edges[i]).0 == n
}

/// Whether `pair` is a pair of two boundary nodes in ascending order.
pub open spec fn pair_ok(edges: Seq<(usize, Vec<usize>)>, pair: (usize, usize)) -> bool {
    pair.0 < pair.1 && listed(edges, pair.0) && listed(edges, pair.1)
}

/// Whether `pair` is noted on some edge.
pub open spec fn is_noted(conditions: Seq<(usize, Seq<(usize, usize)>)>, pair: (usize, usize)) -> bool {
    exists|i: int, k: int|
        0 <= i < conditions.len() && 0 <= k < conditions[i].1.len() && #[trigger] conditions[i].1[k]
            == pair
}

/// What the search for a route from node `n1` to node `n2` finds.
pub open spec fn outcome(edges: Seq<(usize, Vec<usize>)>, c: Conns, n1: usize, n2: usize) -> Option<
    Seq<usize>,
> {
    hunt(
        c,
        edges_of(edges, n2),
        Hunt {
            queue: Seq::new(
                edges_of(edges, n1).len(),
                |i: int| (edges_of(edges, n1)[i], None::<usize>),
            ),
            prev: Map::empty(),
        },
        usize::MAX as nat,
    )
}

/// Every pair that is listed as no route is a pair for which the search
/// finds nothing, and every pair that is noted on an edge is one for which
/// it finds a route; all of them are ascending pairs of boundary nodes.
pub open spec fn sound(edges: Seq<(usize, Vec<usize>)>, c: Conns, r: ResolvedView) -> bool {
    &&& forall|k: int|
        0 <= k < r.non_routes.len() ==> pair_ok(edges, #[trigger] r.non_routes[k]) && outcome(
            edges,
            c,
            r.non_routes[k].0,
            r.non_routes[k].1,
        ) is None
    &&& forall|i: int, k: int|
        0 <= i < r.conditions.len() && 0 <= k < r.conditions[i].1.len() ==> pair_ok(
            edges,
            #[trigger] r.conditions[i].1[k],
        ) && outcome(edges, c, r.conditions[i].1[k].0, r.conditions[i].1[k].1) is Some
}

/// Whether `pair` is listed as no route or noted on an edge.
pub open spec fn covered(r: ResolvedView, pair: (usize, usize)) -> bool {
    r.non_routes.contains(pair) || is_noted(r.conditions, pair)
}

/// Noting a pair on a route adds the pair and nothing else, loses nothing,
/// and notes the pair on some edge where the route has one.
pub proof fn lemma_noted(
    conditions: Seq<(usize, Seq<(usize, usize)>)>,
    route: Seq<usize>,
    pair: (usize, usize),
    len: int,
)
    requires
        0 <= len <= route.len(),
    ensures
        forall|i: int, k: int|
            0 <= i < noted(conditions, route, pair, len).len() && 0 <= k < noted(
                conditions,
                route,
                pair,
                len,
            )[i].1.len() ==> #[trigger] noted(conditions, route, pair, len)[i].1[k] == pair
                || is_noted(conditions, noted(conditions, route, pair, len)[i].1[k]),
        forall|p: (usize, usize)|
            is_noted(conditions, p) ==> is_noted(noted(conditions, route, pair, len), p),
        len > 0 ==> is_noted(noted(conditions, route, pair, len), pair),
    decreases len,
{
    if len > 0 {
        lemma_noted(conditions, route, pair, len - 1);
        let before = noted(conditions, route, pair, len - 1);
        let after = noted(conditions, route, pair, len);
        let e = route[len - 1];
        lemma_key_at(keys_of(before), e, 0);
        match key_at(keys_of(before), e, 0) {
            Some(at) => {
                assert(after == before.update(at, (e, before[at].1.push(pair))));
                assert forall|i: int, k: int|
                    0 <= i < after.len() && 0 <= k < after[i].1.len() implies #[trigger] after[i].1[k]
                    == pair || is_noted(conditions, after[i].1[k]) by {
                    if i == at {
                        if k < before[at].1.len() {
                            assert(after[i].1[k] == before[at].1[k]);
                        }
                    } else {
                        assert(after[i].1[k] == before[i].1[k]);
                    }
                }
                assert forall|p: (usize, usize)| is_noted(before, p) implies is_noted(after, p) by {
                    let (i, k) = choose|i: int, k: int|
                        0 <= i < before.len() && 0 <= k < before[i].1.len()
                            && #[trigger] before[i].1[k] == p;
                    assert(after[i].1[k] == p);
                }
                assert(after[at].1[before[at].1.len() as int] == pair);
            },
            None => {
                assert(after == before.push((e, seq![pair])));
                assert forall|i: int, k: int|
                    0 <= i < after.len() && 0 <= k < after[i].1.len() implies #[trigger] after[i].1[k]
                    == pair || is_noted(conditions, after[i].1[k]) by {
                    if i < before.len() {
                        assert(after[i].1[k] == before[i].1[k]);
                    }
                }
                assert forall|p: (usize, usize)| is_noted(before, p) implies is_noted(after, p) by {
                    let (i, k) = choose|i: int, k: int|
                        0 <= i < before.len() && 0 <= k < before[i].1.len()
                            && #[trigger] before[i].1[k] == p;
                    assert(after[i].1[k] == p);
                }
                assert(after[before.len() as int].1[0] == pair);
            },
        }
    }
}

/// Looking at one pair keeps the result sound, keeps what was covered, and
/// covers the pair where it is ascending.
pub proof fn lemma_resolve_pair(edges: Seq<(usize, Vec<usize>)>, c: Conns, r: ResolvedView, a: int, b: int)
    requires
        sound(edges, c, r),
        0 <= a < edges.len(),
        0 <= b < edges.len(),
    ensures
        sound(edges, c, resolve_pair(edges, c, r, a, b)),
        forall|p: (usize, usize)| covered(r, p) ==> covered(resolve_pair(edges, c, r, a, b), p),
        edges[a].0 < edges[b].0 ==> covered(resolve_pair(edges, c, r, a, b), (edges[a].0, edges[b].0)),
{
    let (node1, node2) = (edges[a].0, edges[b].0);
    let after = resolve_pair(edges, c, r, a, b);
    if node1 < node2 {
        assert(listed(edges, node1)) by {
            assert(edges[a].0 == node1);
        }
        assert(listed(edges, node2)) by {
            assert(edges[b].0 == node2);
        }
        let found = outcome(edges, c, node1, node2);
        match found {
            Some(route) => {
                lemma_hunt_finds_some(
                    c,
                    edges_of(edges, node2),
                    Hunt {
                        queue: Seq::new(
                            edges_of(edges, node1).len(),
                            |i: int| (edges_of(edges, node1)[i], None::<usize>),
                        ),
                        prev: Map::empty(),
                    },
                    usize::MAX as nat,
                );
                lemma_noted(r.conditions, route, (node1, node2), route.len() as int);
                assert forall|p: (usize, usize)| covered(r, p) implies covered(after, p) by {}
            },
            None => {
                assert forall|k: int| 0 <= k < after.non_routes.len() implies pair_ok(
                    edges,
                    #[trigger] after.non_routes[k],
                ) && outcome(edges, c, after.non_routes[k].0, after.non_routes[k].1) is None by {
                    if k < r.non_routes.len() {
                        assert(after.non_routes[k] == r.non_routes[k]);
                    }
                }
                assert forall|p: (usize, usize)| covered(r, p) implies covered(after, p) by {
                    if r.non_routes.contains(p) {
                        let k = choose|k: int| 0 <= k < r.non_routes.len() && r.non_routes[k] == p;
                        assert(after.non_routes[k] == p);
                    }
                }
                assert(after.non_routes[r.non_routes.len() as int] == (node1, node2));
            },
        }
    }
}

/// A route that the search finds has an edge.
pub proof fn lemma_hunt_finds_some(c: Conns, target: Seq<usize>, h: Hunt, fuel: nat)
    ensures
        hunt(c, target, h, fuel) matches Some(route) ==> route.len() > 0,
    decreases fuel,
{
    if fuel > 0 && h.queue.len() > 0 {
        let (edge, last) = h.queue[0];
        let rest = h.queue.drop_first();
        if last is Some && h.prev.contains_key(edge) {
            lemma_hunt_finds_some(c, target, Hunt { queue: rest, ..h }, (fuel - 1) as nat);
        } else {
            let prev = match last {
                Some(l) => h.prev.insert(edge, l),
                None => h.prev,
            };
            if !target.contains(edge) {
                lemma_hunt_finds_some(
                    c,
                    target,
                    Hunt { queue: rest + onward(c, edge, last), prev },
                    (fuel - 1) as nat,
                );
            }
        }
    }
}

/// Pairing one node with the first `len` nodes keeps the result sound, keeps
/// what was covered, and covers the ascending pairs among them.
pub proof fn lemma_resolve_row(edges: Seq<(usize, Vec<usize>)>, c: Conns, r: ResolvedView, a: int, len: int)
    requires
        sound(edges, c, r),
        0 <= a < edges.len(),
        0 <= len <= edges.len(),
    ensures
        sound(edges, c, resolve_row(edges, c, r, a, len)),
        forall|p: (usize, usize)| covered(r, p) ==> covered(resolve_row(edges, c, r, a, len), p),
        forall|b: int|
            0 <= b < len && edges[a].0 < (#[trigger] edges[b]).0 ==> covered(
                resolve_row(edges, c, r, a, len),
                (edges[a].0, edges[b].0),
            ),
    decreases len,
{
    if len > 0 {
        lemma_resolve_row(edges, c, r, a, len - 1);
        let before = resolve_row(edges, c, r, a, len - 1);
        lemma_resolve_pair(edges, c, before, a, len - 1);
    }
}

/// Pairing the first `len` nodes with all nodes gives a sound result that
/// covers the ascending pairs among them.
pub proof fn lemma_resolve_rows(edges: Seq<(usize, Vec<usize>)>, c: Conns, len: int)
    requires
        0 <= len <= edges.len(),
    ensures
        sound(edges, c, resolve_rows(edges, c, len)),
        forall|a: int, b: int|
            0 <= a < len && 0 <= b < edges.len() && (#[trigger] edges[a]).0 < (
            #[trigger] edges[b]).0 ==> covered(
                resolve_rows(edges, c, len),
                (edges[a].0, edges[b].0),
            ),
    decreases len,
{
    if len > 0 {
        lemma_resolve_rows(edges, c, len - 1);
        let before = resolve_rows(edges, c, len - 1);
        lemma_resolve_row(edges, c, before, len - 1, edges.len() as int);
    }
}

/// What the compiler works out: every pair it lists or notes is an
/// ascending pair of boundary nodes; every ascending pair of boundary nodes
/// is listed as no route or noted on at least one edge; and no pair is both.
pub proof fn lemma_resolved(edges: Seq<(usize, Vec<usize>)>, joins: Seq<Vec<Vec<usize>>>)
    ensures
        ({
            let r = resolved(edges, joins);
            &&& forall|k: int|
                0 <= k < r.non_routes.len() ==> pair_ok(edges, #[trigger] r.non_routes[k])
                    && !is_noted(r.conditions, r.non_routes[k])
            &&& forall|i: int, k: int|
                0 <= i < r.conditions.len() && 0 <= k < r.conditions[i].1.len() ==> pair_ok(
                    edges,
                    #[trigger] r.conditions[i].1[k],
                ) && !r.non_routes.contains(r.conditions[i].1[k])
            &&& forall|a: int, b: int|
                0 <= a < edges.len() && 0 <= b < edges.len() && (#[trigger] edges[a]).0 < (
                #[trigger] edges[b]).0 ==> covered(r, (edges[a].0, edges[b].0))
        }),
{
    let c = link_all(joins, joins.len() as int);
    let r = resolved(edges, joins);
    lemma_resolve_rows(edges, c, edges.len() as int);
    assert forall|k: int| 0 <= k < r.non_routes.len() implies pair_ok(
        edges,
        #[trigger] r.non_routes[k],
    ) && !is_noted(r.conditions, r.non_routes[k]) by {
        let p = r.non_routes[k];
        if is_noted(r.conditions, p) {
            let (i, j) = choose|i: int, j: int|
                0 <= i < r.conditions.len() && 0 <= j < r.conditions[i].1.len()
                    && #[trigger] r.conditions[i].1[j] == p;
            assert(outcome(edges, c, r.conditions[i].1[j].0, r.conditions[i].1[j].1) is Some);
        }
    }
    assert forall|i: int, k: int|
        0 <= i < r.conditions.len() && 0 <= k < r.conditions[i].1.len() implies pair_ok(
        edges,
        #[trigger] r.conditions[i].1[k],
    ) && !r.non_routes.contains(r.conditions[i].1[k]) by {
        let p = r.conditions[i].1[k];
        if r.non_routes.contains(p) {
            let j = choose|j: int| 0 <= j < r.non_routes.len() && r.non_routes[j] == p;
            assert(outcome(edges, c, r.non_routes[j].0, r.non_routes[j].1) is None);
        }
    }
}

} // verus!
