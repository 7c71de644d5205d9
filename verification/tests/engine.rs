use bars_core::client::Aerodrome;
use bars_core::config;
use bars_core::config::{
    BlockCondition, BlockState, Edge, EdgeCondition, Node, NodeCondition, Preset, Profile,
    ResetCondition,
};
use bars_core::model::{ActivityState, State, Timer};
use bars_core::protocol;
use bars_core::protocol::Patch;
use bars_core::strmap::StrMap;

const ALL: usize = 0xFFFF_FFFF;

fn key(s: &str) -> String {
    s.to_string()
}

fn node(id: &str, parent: Option<usize>) -> Node {
    Node { id: key(id), scratchpad: None, parent }
}

fn block(id: &str, nodes: Vec<usize>, non_routes: Vec<(usize, usize)>) -> config::Block {
    config::Block { id: key(id), nodes, edges: Vec::new(), non_routes, stands: Vec::new() }
}

fn profile(
    id: &str,
    nodes: Vec<NodeCondition>,
    edges: Vec<EdgeCondition>,
    blocks: Vec<BlockCondition>,
    presets: Vec<Preset>,
) -> Profile {
    Profile { id: key(id), name: key(id), nodes, edges, blocks, presets }
}

fn aerodrome(
    nodes: Vec<Node>,
    blocks: Vec<config::Block>,
    profiles: Vec<Profile>,
) -> config::Aerodrome {
    let edges = profiles.first().map(|p| p.edges.len()).unwrap_or(0);
    config::Aerodrome {
        icao: key("AAAA"),
        elements: Vec::new(),
        nodes,
        edges: (0..edges).map(|_| Edge {}).collect(),
        blocks,
        profiles,
    }
}

fn never() -> BlockCondition {
    BlockCondition(ResetCondition::Never)
}

/// Nodes A (router), F (fixed dark), B (router); block BK1 on {A, F} and
/// block BK2 on {F, B}.
fn chain() -> config::Aerodrome {
    aerodrome(
        vec![node("A", None), node("F", None), node("B", None)],
        vec![block("BK1", vec![0, 1], vec![]), block("BK2", vec![1, 2], vec![])],
        vec![profile(
            "day",
            vec![NodeCondition::Router, NodeCondition::Fixed(false), NodeCondition::Router],
            vec![],
            vec![never(), never()],
            vec![],
        )],
    )
}

/// One direct node that resets after two seconds, one that never does, one
/// fixed lit; one block that resets after five seconds.
fn direct() -> config::Aerodrome {
    aerodrome(
        vec![node("n1", None), node("n2", None), node("n3", None)],
        vec![block("b1", vec![0, 1], vec![])],
        vec![
            profile(
                "day",
                vec![
                    NodeCondition::Direct(ResetCondition::TimeSecs(2)),
                    NodeCondition::Direct(ResetCondition::Never),
                    NodeCondition::Fixed(true),
                ],
                vec![EdgeCondition::Fixed(true), EdgeCondition::Direct(0)],
                vec![BlockCondition(ResetCondition::TimeSecs(5))],
                vec![
                    Preset { name: key("all"), nodes: vec![(ALL, false)], blocks: vec![(ALL, BlockState::Relax)] },
                    Preset {
                        name: key("mixed"),
                        nodes: vec![(1, true), (ALL, false)],
                        blocks: vec![(0, BlockState::Route((0, 1)))],
                    },
                ],
            ),
            profile(
                "night",
                vec![
                    NodeCondition::Fixed(false),
                    NodeCondition::Direct(ResetCondition::TimeSecs(1)),
                    NodeCondition::Router,
                ],
                vec![EdgeCondition::Fixed(false), EdgeCondition::Fixed(false)],
                vec![never()],
                vec![],
            ),
        ],
    )
}

fn cell<T>(current: T, pending: Option<T>) -> State<T> {
    State { current, pending }
}

fn same<T: PartialEq>(a: Option<State<T>>, b: State<T>) -> bool {
    match a {
        Some(a) => a.current == b.current && a.pending == b.pending,
        None => false,
    }
}

#[test]
fn loading_sets_defaults() {
    let a = Aerodrome::new(direct()).unwrap();
    assert_eq!(a.profile(), 0);
    assert_eq!(a.state(), ActivityState::Inactive);
    assert!(same(a.node_cell(0), cell(true, None)));
    assert!(same(a.node_cell(1), cell(false, None)));
    assert!(same(a.node_cell(2), cell(true, None)));
    assert!(same(a.block_cell(0), cell(BlockState::Clear, None)));
    assert!(a.node_cell(3).is_none());
    assert!(a.block_cell(1).is_none());
    assert!(a.pending_patch().is_empty());
    assert!(a.node_timers().is_empty());
}

#[test]
fn configuration_without_profile_is_refused() {
    let c = aerodrome(vec![node("a", None)], vec![], vec![]);
    assert!(!c.check());
    assert!(Aerodrome::new(c).is_none());
}

#[test]
fn configuration_with_repeated_node_id_is_refused() {
    let c = aerodrome(
        vec![node("a", None), node("a", None)],
        vec![],
        vec![profile("p", vec![NodeCondition::Router, NodeCondition::Router], vec![], vec![], vec![])],
    );
    assert!(Aerodrome::new(c).is_none());
}

#[test]
fn configuration_with_later_parent_is_refused() {
    let c = aerodrome(
        vec![node("a", Some(1)), node("b", None)],
        vec![],
        vec![profile("p", vec![NodeCondition::Router, NodeCondition::Router], vec![], vec![], vec![])],
    );
    assert!(Aerodrome::new(c).is_none());
}

#[test]
fn configuration_with_three_borders_is_refused() {
    let c = aerodrome(
        vec![node("a", None)],
        vec![block("x", vec![0], vec![]), block("y", vec![0], vec![]), block("z", vec![0], vec![])],
        vec![profile("p", vec![NodeCondition::Router], vec![], vec![never(), never(), never()], vec![])],
    );
    assert!(c.check());
    assert!(Aerodrome::new(c).is_none());
}

#[test]
fn configuration_with_short_profile_is_refused() {
    let c = aerodrome(
        vec![node("a", None), node("b", None)],
        vec![],
        vec![profile("p", vec![NodeCondition::Router], vec![], vec![], vec![])],
    );
    assert!(Aerodrome::new(c).is_none());
}

#[test]
fn configuration_with_unknown_block_node_is_refused() {
    let c = aerodrome(
        vec![node("a", None)],
        vec![block("x", vec![4], vec![])],
        vec![profile("p", vec![NodeCondition::Router], vec![], vec![never()], vec![])],
    );
    assert!(Aerodrome::new(c).is_none());
}

#[test]
fn wildcard_is_recognised_by_its_low_bits() {
    assert!(config::wildcard(0xFFFF_FFFF));
    assert!(!config::wildcard(0));
    assert!(!config::wildcard(0xFFFF_FFFE));
}

#[test]
fn fixed_and_direct_nodes() {
    let mut a = Aerodrome::new(direct()).unwrap();
    assert!(a.node_state(0));
    assert!(!a.node_state(1));
    assert!(a.node_state(2));
    a.set_node(1, true, 0);
    assert!(a.node_state(1));
    assert!(same(a.node_cell(1), cell(false, Some(true))));
    a.set_node(2, false, 0);
    assert!(a.node_state(2));
    a.set_node(7, false, 0);
    assert!(a.node_cell(7).is_none());
}

#[test]
fn edges_follow_fixed_and_direct() {
    let mut a = Aerodrome::new(direct()).unwrap();
    assert!(a.edge_state(0));
    assert!(!a.edge_state(1));
    a.set_node(0, false, 0);
    assert!(a.edge_state(1));
}

#[test]
fn router_node_follows_its_blocks() {
    let mut a = Aerodrome::new(chain()).unwrap();
    assert!(a.node_state(0));
    a.set_block(0, BlockState::Relax, 0);
    // the relaxed state spreads through the fixed dark node to BK2
    assert!(same(a.block_cell(1), cell(BlockState::Clear, Some(BlockState::Relax))));
    assert!(!a.node_state(0));
    assert!(!a.node_state(2));
    a.set_route((0, 2), 0);
    assert!(!a.node_state(0));
    assert!(!a.node_state(2));
    a.set_block(0, BlockState::Clear, 0);
    assert!(a.node_state(0));
    assert!(a.node_state(2));
}

#[test]
fn clearing_a_block_never_puts_out_a_router_node() {
    for first in [BlockState::Clear, BlockState::Relax, BlockState::Route((0, 1))] {
        let mut a = Aerodrome::new(chain()).unwrap();
        a.set_block(0, first, 0);
        let before = a.node_state(2);
        a.set_block(1, BlockState::Clear, 0);
        assert!(!before || a.node_state(2));
    }
}

#[test]
fn timer_fires() {
    let mut a = Aerodrome::new(direct()).unwrap();
    a.set_node(0, false, 0);
    assert!(same(a.node_cell(0), cell(true, Some(false))));
    assert_eq!(a.node_timers().len(), 1);
    assert_eq!(a.node_timers()[0], Timer { index: 0, set_at: 0, delay_secs: 2 });
    let sent = a.take_patch();
    assert_eq!(sent.nodes.get(&key("n1")), Some(&false));
    a.tick(1999);
    assert!(same(a.node_cell(0), cell(true, Some(false))));
    assert!(a.pending_patch().is_empty());
    a.tick(2500);
    assert!(same(a.node_cell(0), cell(true, Some(true))));
    assert!(a.node_timers().is_empty());
    assert_eq!(a.pending_patch().nodes.len(), 1);
    assert_eq!(a.pending_patch().nodes.get(&key("n1")), Some(&true));
}

#[test]
fn timer_fires_at_its_deadline() {
    let mut a = Aerodrome::new(direct()).unwrap();
    a.set_node(0, false, 10);
    assert!(!Timer { index: 0, set_at: 10, delay_secs: 2 }.is_due(2009));
    assert!(Timer { index: 0, set_at: 10, delay_secs: 2 }.is_due(2010));
    a.tick(2010);
    assert!(a.node_state(0));
}

#[test]
fn setting_a_node_again_replaces_its_timer() {
    let mut a = Aerodrome::new(direct()).unwrap();
    a.set_node(0, false, 0);
    a.set_node(0, false, 700);
    assert_eq!(a.node_timers().len(), 1);
    assert_eq!(a.node_timers()[0].set_at, 700);
    a.set_node(0, true, 800);
    assert!(a.node_timers().is_empty());
    a.set_node(1, false, 0);
    assert!(a.node_timers().is_empty());
}

#[test]
fn block_timer_clears_the_block() {
    let mut a = Aerodrome::new(direct()).unwrap();
    a.set_block(0, BlockState::Relax, 100);
    assert_eq!(a.block_timers().len(), 1);
    assert_eq!(a.block_timers()[0], Timer { index: 0, set_at: 100, delay_secs: 5 });
    a.tick(5099);
    assert!(same(a.block_cell(0), cell(BlockState::Clear, Some(BlockState::Relax))));
    a.tick(5100);
    assert!(same(a.block_cell(0), cell(BlockState::Clear, Some(BlockState::Clear))));
    assert!(a.block_timers().is_empty());
    a.set_block(0, BlockState::Clear, 0);
    assert!(a.block_timers().is_empty());
}

#[test]
fn tick_twice_is_tick_once() {
    let mut a = Aerodrome::new(direct()).unwrap();
    a.set_node(0, false, 0);
    a.set_block(0, BlockState::Relax, 0);
    a.tick(6000);
    let nodes: Vec<_> = (0..3).map(|i| a.node_cell(i).unwrap()).collect();
    let timers = a.node_timers().clone();
    a.tick(6000);
    for i in 0..3 {
        assert!(same(a.node_cell(i), nodes[i]));
    }
    assert_eq!(a.node_timers(), &timers);
    assert!(a.block_timers().is_empty());
}

#[test]
fn route_through_a_fixed_dark_node() {
    let a = Aerodrome::new(chain()).unwrap();
    let plan = a.route_plan(0, 2);
    assert_eq!(plan.len(), 2);
    assert_eq!(plan[0].0, 0);
    assert!(plan[0].1 == BlockState::Route((0, 1)));
    assert_eq!(plan[1].0, 1);
    assert!(plan[1].1 == BlockState::Route((1, 2)));
}

#[test]
fn set_route_routes_the_blocks_of_the_chain() {
    let mut a = Aerodrome::new(chain()).unwrap();
    a.set_route((0, 2), 0);
    assert!(same(a.block_cell(0), cell(BlockState::Clear, Some(BlockState::Route((0, 1))))));
    assert!(same(a.block_cell(1), cell(BlockState::Clear, Some(BlockState::Route((1, 2))))));
    let p = a.take_patch();
    assert_eq!(p.blocks.len(), 2);
    assert_eq!(p.blocks.key_at(0), &key("BK1"));
    assert!(p.blocks.value_at(0) == &protocol::BlockState::Route((key("A"), key("F"))));
    assert_eq!(p.blocks.key_at(1), &key("BK2"));
    assert!(p.blocks.value_at(1) == &protocol::BlockState::Route((key("F"), key("B"))));
}

#[test]
fn no_route_between_nodes_that_are_not_routers() {
    let a = Aerodrome::new(chain()).unwrap();
    assert!(a.route_plan(0, 1).is_empty());
    assert!(a.route_plan(1, 2).is_empty());
    assert!(a.route_plan(0, 9).is_empty());
    assert!(a.route_plan(0, 0).is_empty());
}

#[test]
fn no_route_through_a_fixed_lit_node() {
    let mut c = chain();
    c.profiles[0].nodes[1] = NodeCondition::Fixed(true);
    let mut a = Aerodrome::new(c).unwrap();
    assert!(a.route_plan(0, 2).is_empty());
    a.set_route((0, 2), 0);
    assert!(a.pending_patch().is_empty());
}

#[test]
fn no_route_over_a_forbidden_pair() {
    let mut c = chain();
    c.blocks[1].non_routes = vec![(2, 1)];
    let a = Aerodrome::new(c).unwrap();
    assert!(a.route_plan(0, 2).is_empty());
}

#[test]
fn route_between_neighbours() {
    let c = aerodrome(
        vec![node("A", None), node("B", None)],
        vec![block("BK", vec![0, 1], vec![])],
        vec![profile("p", vec![NodeCondition::Router, NodeCondition::Router], vec![], vec![never()], vec![])],
    );
    let a = Aerodrome::new(c).unwrap();
    let plan = a.route_plan(0, 1);
    assert_eq!(plan.len(), 1);
    assert_eq!(plan[0].0, 0);
    assert!(plan[0].1 == BlockState::Route((0, 1)));
}

#[test]
fn cascade_stops_at_other_nodes() {
    let mut c = chain();
    c.profiles[0].nodes[1] = NodeCondition::Router;
    let mut a = Aerodrome::new(c).unwrap();
    a.set_block(0, BlockState::Relax, 0);
    assert!(same(a.block_cell(0), cell(BlockState::Clear, Some(BlockState::Relax))));
    assert!(same(a.block_cell(1), cell(BlockState::Clear, None)));
}

#[test]
fn set_block_ignores_what_does_not_exist() {
    let mut a = Aerodrome::new(chain()).unwrap();
    a.set_block(5, BlockState::Relax, 0);
    a.set_block(0, BlockState::Route((0, 9)), 0);
    assert!(a.pending_patch().is_empty());
    assert!(same(a.block_cell(0), cell(BlockState::Clear, None)));
}

fn family() -> config::Aerodrome {
    // parents P (0) and Q (1); P has the children pa (2) and pb (3), Q has none
    aerodrome(
        vec![node("P", None), node("Q", None), node("pa", Some(0)), node("pb", Some(0))],
        vec![block("BK", vec![0, 1], vec![(3, 1)]), block("NX", vec![1], vec![])],
        vec![profile(
            "p",
            vec![NodeCondition::Router, NodeCondition::Router, NodeCondition::Router, NodeCondition::Router],
            vec![
                EdgeCondition::Router { block: 0, routes: vec![(1, 2)] },
                EdgeCondition::Router { block: 0, routes: vec![(3, 1)] },
            ],
            vec![never(), never()],
            vec![],
        )],
    )
}

#[test]
fn candidates_pair_the_families() {
    let mut a = Aerodrome::new(family()).unwrap();
    assert!(a.route_candidates(0).is_empty());
    a.set_block(0, BlockState::Route((0, 1)), 0);
    // pb-Q is forbidden, so only pa-Q remains
    assert_eq!(a.route_candidates(0), vec![(2, 1)]);
    assert!(a.edge_state(0));
    assert!(!a.edge_state(1));
}

#[test]
fn routed_edge_follows_block_state() {
    let mut a = Aerodrome::new(family()).unwrap();
    assert!(!a.edge_state(0));
    a.set_block(0, BlockState::Relax, 0);
    assert!(a.edge_state(0));
    assert!(a.edge_state(1));
}

#[test]
fn several_candidates_are_restricted_by_the_adjacent_blocks() {
    let mut c = family();
    c.blocks[0].non_routes = vec![];
    c.profiles[0].edges = vec![
        EdgeCondition::Router { block: 0, routes: vec![(2, 1), (3, 1)] },
        EdgeCondition::Router { block: 0, routes: vec![(2, 1)] },
    ];
    let mut a = Aerodrome::new(c).unwrap();
    a.set_block(0, BlockState::Route((0, 1)), 0);
    assert_eq!(a.route_candidates(0), vec![(2, 1), (3, 1)]);
    // both candidates start at a listed end
    assert!(a.edge_state(0));
    // pb is not an end of the route that the second edge lists
    assert!(!a.edge_state(1));
    // the block beyond Q is relaxed: nothing is lit
    a.set_block(1, BlockState::Relax, 0);
    assert!(!a.edge_state(0));
}

#[test]
fn preset_wildcard_reaches_every_cell() {
    let mut a = Aerodrome::new(direct()).unwrap();
    a.set_node(1, true, 0);
    a.apply_preset(0);
    for i in 0..3 {
        assert_eq!(a.node_cell(i).unwrap().pending, Some(false));
    }
    assert!(a.block_cell(0).unwrap().pending == Some(BlockState::Relax));
    let p = a.pending_patch();
    assert_eq!(p.nodes.len(), 3);
    for k in ["n1", "n2", "n3"] {
        assert_eq!(p.nodes.get(&key(k)), Some(&false));
    }
    assert!(p.blocks.get(&key("b1")) == Some(&protocol::BlockState::Relax));
    assert!(a.node_timers().is_empty());
    assert!(a.block_timers().is_empty());
}

#[test]
fn preset_wildcard_skips_what_was_written() {
    let mut a = Aerodrome::new(direct()).unwrap();
    a.set_node(0, false, 0);
    a.apply_preset(1);
    assert_eq!(a.node_cell(0).unwrap().pending, Some(false));
    assert_eq!(a.node_cell(1).unwrap().pending, Some(true));
    assert_eq!(a.node_cell(2).unwrap().pending, Some(false));
    assert!(a.block_cell(0).unwrap().pending == Some(BlockState::Route((0, 1))));
    assert!(a.pending_patch().blocks.get(&key("b1"))
        == Some(&protocol::BlockState::Route((key("n1"), key("n2")))));
    assert!(a.node_timers().is_empty());
}

#[test]
fn preset_that_does_not_exist_changes_nothing() {
    let mut a = Aerodrome::new(direct()).unwrap();
    a.apply_preset(9);
    assert!(a.pending_patch().is_empty());
    assert!(same(a.node_cell(0), cell(true, None)));
}

#[test]
fn echo_of_a_preset_confirms_it() {
    let mut a = Aerodrome::new(direct()).unwrap();
    a.apply_preset(1);
    let effective: Vec<bool> = (0..3).map(|i| *a.node_cell(i).unwrap().state()).collect();
    let block = *a.block_cell(0).unwrap().state();
    let p = a.take_patch();
    a.apply_patch(p);
    for i in 0..3 {
        let c = a.node_cell(i).unwrap();
        assert_eq!(c.pending, None);
        assert_eq!(c.current, effective[i]);
    }
    let b = a.block_cell(0).unwrap();
    assert!(b.pending.is_none());
    assert!(b.current == block);
}

#[test]
fn confirmation_clears_pending_and_cancels_the_timer() {
    let mut a = Aerodrome::new(direct()).unwrap();
    a.set_node(0, false, 0);
    assert_eq!(a.node_timers().len(), 1);
    let p = a.take_patch();
    a.apply_patch(p);
    assert!(same(a.node_cell(0), cell(false, None)));
    assert!(a.node_timers().is_empty());
    a.tick(2000);
    assert!(same(a.node_cell(0), cell(false, None)));
    assert!(a.pending_patch().is_empty());
}

#[test]
fn confirmation_of_a_block_cancels_its_timer() {
    let mut a = Aerodrome::new(direct()).unwrap();
    a.set_block(0, BlockState::Relax, 0);
    a.set_node(0, false, 0);
    assert_eq!(a.block_timers().len(), 1);
    let mut blocks = StrMap::new();
    blocks.insert(key("b1"), protocol::BlockState::Relax);
    a.apply_patch(Patch { profile: None, nodes: StrMap::new(), blocks });
    assert!(same(a.block_cell(0), cell(BlockState::Relax, None)));
    assert!(a.block_timers().is_empty());
    // the node was not named: its timer stays
    assert_eq!(a.node_timers().len(), 1);
}

fn patch_of(nodes: &[(&str, bool)], blocks: &[(&str, protocol::BlockState)]) -> Patch {
    let mut n = StrMap::new();
    for (k, v) in nodes {
        n.insert(key(k), *v);
    }
    let mut b = StrMap::new();
    for (k, v) in blocks {
        b.insert(key(k), v.clone());
    }
    Patch { profile: None, nodes: n, blocks: b }
}

#[test]
fn two_server_patches_do_what_their_merge_does() {
    let first = || patch_of(&[("n1", true), ("n2", true)], &[("b1", protocol::BlockState::Relax)]);
    let second = || patch_of(&[("n1", false)], &[("b1", protocol::BlockState::Clear)]);
    let mut one = Aerodrome::new(direct()).unwrap();
    let mut two = Aerodrome::new(direct()).unwrap();
    for a in [&mut one, &mut two] {
        a.set_node(0, false, 0);
        a.set_node(1, true, 0);
        a.set_block(0, BlockState::Relax, 0);
    }
    one.apply_patch(first());
    one.apply_patch(second());
    let mut merged = first();
    merged.apply_patch(second());
    two.apply_patch(merged);
    for i in 0..3 {
        assert!(same(one.node_cell(i), two.node_cell(i).unwrap()));
    }
    assert!(same(one.block_cell(0), two.block_cell(0).unwrap()));
    assert!(same(one.node_cell(0), cell(false, None)));
    assert!(same(one.block_cell(0), cell(BlockState::Clear, None)));
    assert_eq!(one.node_timers(), two.node_timers());
    assert_eq!(one.block_timers(), two.block_timers());
    assert!(one.node_timers().is_empty() && one.block_timers().is_empty());
    assert_eq!(one.profile(), two.profile());
}

#[test]
fn other_value_from_the_server_wins_and_cancels_the_timer() {
    let mut a = Aerodrome::new(direct()).unwrap();
    a.set_node(0, false, 0);
    let mut nodes = StrMap::new();
    nodes.insert(key("n1"), true);
    nodes.insert(key("unknown"), true);
    a.apply_patch(Patch { profile: None, nodes, blocks: StrMap::new() });
    assert!(same(a.node_cell(0), cell(true, None)));
    assert!(a.node_timers().is_empty());
}

#[test]
fn patch_with_unknown_route_is_passed_over() {
    let mut a = Aerodrome::new(direct()).unwrap();
    let mut blocks = StrMap::new();
    blocks.insert(key("b1"), protocol::BlockState::Route((key("n1"), key("nope"))));
    a.apply_patch(Patch { profile: None, nodes: StrMap::new(), blocks });
    assert!(same(a.block_cell(0), cell(BlockState::Clear, None)));
    let mut blocks = StrMap::new();
    blocks.insert(key("b1"), protocol::BlockState::Route((key("n2"), key("n1"))));
    a.apply_patch(Patch { profile: None, nodes: StrMap::new(), blocks });
    assert!(same(a.block_cell(0), cell(BlockState::Route((1, 0)), None)));
}

#[test]
fn patch_with_profile_switches_and_cancels_timers() {
    let mut a = Aerodrome::new(direct()).unwrap();
    a.set_node(0, false, 0);
    a.apply_patch(Patch { profile: Some(key("night")), nodes: StrMap::new(), blocks: StrMap::new() });
    assert_eq!(a.profile(), 1);
    assert!(a.node_timers().is_empty());
    a.apply_patch(Patch { profile: Some(key("dusk")), nodes: StrMap::new(), blocks: StrMap::new() });
    assert_eq!(a.profile(), 1);
}

#[test]
fn set_profile_queues_the_whole_state() {
    let mut a = Aerodrome::new(direct()).unwrap();
    a.set_node(0, false, 0);
    a.set_profile(1);
    assert_eq!(a.profile(), 1);
    assert!(same(a.node_cell(0), cell(false, None)));
    assert!(same(a.node_cell(1), cell(true, None)));
    assert!(same(a.node_cell(2), cell(true, None)));
    assert!(a.node_timers().is_empty());
    let p = a.take_patch();
    assert_eq!(p.profile, Some(key("night")));
    assert_eq!(p.nodes.len(), 3);
    assert_eq!(p.nodes.get(&key("n1")), Some(&false));
    assert_eq!(p.nodes.get(&key("n2")), Some(&true));
    assert!(p.blocks.get(&key("b1")) == Some(&protocol::BlockState::Clear));
    a.set_profile(7);
    assert_eq!(a.profile(), 1);
    assert!(a.pending_patch().is_empty());
}

#[test]
fn pilots_are_looked_up() {
    let mut a = Aerodrome::new(direct()).unwrap();
    assert!(!a.is_pilot_enabled(&key("BAW1")));
    a.set_aircraft(vec![key("BAW1"), key("DLH2")]);
    assert!(a.is_pilot_enabled(&key("DLH2")));
    assert!(!a.is_pilot_enabled(&key("AFR3")));
}

#[test]
fn block_state_spreads_over_every_block_that_is_reached() {
    // four blocks in a row, joined by the nodes F1 (dark), R (router), F2 (dark)
    let c = aerodrome(
        vec![node("A", None), node("F1", None), node("R", None), node("F2", None), node("B", None)],
        vec![
            block("K0", vec![0, 1], vec![]),
            block("K1", vec![1, 2], vec![]),
            block("K2", vec![2, 3], vec![]),
            block("K3", vec![3, 4], vec![]),
        ],
        vec![profile(
            "p",
            vec![
                NodeCondition::Router,
                NodeCondition::Fixed(false),
                NodeCondition::Router,
                NodeCondition::Fixed(false),
                NodeCondition::Router,
            ],
            vec![],
            vec![never(), never(), never(), never()],
            vec![],
        )],
    );
    let mut a = Aerodrome::new(c).unwrap();
    a.set_block(1, BlockState::Relax, 0);
    assert!(same(a.block_cell(0), cell(BlockState::Clear, Some(BlockState::Relax))));
    assert!(same(a.block_cell(1), cell(BlockState::Clear, Some(BlockState::Relax))));
    assert!(same(a.block_cell(2), cell(BlockState::Clear, None)));
    assert!(same(a.block_cell(3), cell(BlockState::Clear, None)));
    a.set_block(3, BlockState::Route((3, 4)), 0);
    assert!(same(a.block_cell(2), cell(BlockState::Clear, Some(BlockState::Route((3, 4))))));
    assert!(same(a.block_cell(3), cell(BlockState::Clear, Some(BlockState::Route((3, 4))))));
    assert!(same(a.block_cell(1), cell(BlockState::Clear, Some(BlockState::Relax))));
}
