use bars_core::compiler::{
    expand_preset, id_list, resolve_routes, rule_for, BlockRule, EdgeRule, IdList, NodeRule,
};
use bars_core::config::{BlockCondition, BlockState, EdgeCondition, NodeCondition, ResetCondition};
use bars_core::screen::{
    handle_click, is_background_refresh_required, ClickAction, ClickType, Lookup2d, Target,
};

fn key(s: &str) -> String {
    s.to_string()
}

#[test]
fn id_lists_are_read() {
    assert!(IdList::wildcard().0.is_empty());
    assert!(id_list("").0.is_empty());
    assert_eq!(id_list("a").0, vec![key("a")]);
    assert_eq!(id_list("a+b+c").0, vec![key("a"), key("b"), key("c")]);
    assert!(id_list("a+b").contains(&key("b")));
    assert!(!id_list("a+b").contains(&key("a+b")));
}

#[test]
fn rules_compile_to_conditions() {
    assert_eq!(NodeRule::Fixed { state: true }.convert(), NodeCondition::Fixed(true));
    assert_eq!(
        NodeRule::Direct { timer: Some(30) }.convert(),
        NodeCondition::Direct(ResetCondition::TimeSecs(30))
    );
    assert_eq!(NodeRule::Direct { timer: None }.convert(), NodeCondition::Direct(ResetCondition::Never));
    assert_eq!(NodeRule::Router.convert(), NodeCondition::Router);
    assert_eq!(NodeRule::default().convert(), NodeCondition::Fixed(false));
    assert_eq!(BlockRule { timer: Some(5) }.convert(), BlockCondition(ResetCondition::TimeSecs(5)));
    assert_eq!(BlockRule::default().convert(), BlockCondition(ResetCondition::Never));
    assert!(matches!(EdgeRule::Direct { node: 3 }.convert(None), EdgeCondition::Direct(3)));
    assert!(matches!(EdgeRule::Router.convert(None), EdgeCondition::Fixed(false)));
    assert!(matches!(
        EdgeRule::Router.convert(Some((2, vec![(0, 1)]))),
        EdgeCondition::Router { block: 2, routes } if routes == vec![(0, 1)]
    ));
    assert!(matches!(EdgeRule::default().convert(Some((2, vec![]))), EdgeCondition::Fixed(false)));
}

#[test]
fn straight_block_has_one_route() {
    // node 1 --e10-- vertex --e11-- node 2
    let edges = vec![(1, vec![10]), (2, vec![11])];
    let joins = vec![vec![vec![10], vec![11]]];
    let r = resolve_routes(&edges, &joins);
    assert!(r.non_routes.is_empty());
    assert_eq!(r.conditions, vec![(11, vec![(1, 2)]), (10, vec![(1, 2)])]);
}

#[test]
fn nodes_without_a_join_have_no_route() {
    let edges = vec![(1, vec![10]), (2, vec![11]), (3, vec![12])];
    let joins = vec![vec![vec![10], vec![11]]];
    let r = resolve_routes(&edges, &joins);
    assert_eq!(r.non_routes, vec![(1, 3), (2, 3)]);
    assert_eq!(r.conditions, vec![(11, vec![(1, 2)]), (10, vec![(1, 2)])]);
}

#[test]
fn no_turning_back_within_a_sector() {
    // edges 10 and 11 meet the vertex in the same sector: no way from one to
    // the other; both lead on to 12
    let edges = vec![(1, vec![10]), (2, vec![11]), (3, vec![12])];
    let joins = vec![vec![vec![10, 11], vec![12]]];
    let r = resolve_routes(&edges, &joins);
    assert_eq!(r.non_routes, vec![(1, 2)]);
    assert_eq!(r.conditions, vec![(12, vec![(1, 3), (2, 3)]), (10, vec![(1, 3)]), (11, vec![(2, 3)])]);
}

#[test]
fn route_over_two_vertices() {
    // node 1 --10-- v1 --20-- v2 --11-- node 2
    let edges = vec![(1, vec![10]), (2, vec![11])];
    let joins = vec![vec![vec![10], vec![20]], vec![vec![20], vec![11]]];
    let r = resolve_routes(&edges, &joins);
    assert!(r.non_routes.is_empty());
    assert_eq!(r.conditions, vec![(11, vec![(1, 2)]), (20, vec![(1, 2)]), (10, vec![(1, 2)])]);
}

#[test]
fn pairs_are_taken_in_ascending_order() {
    let edges = vec![(2, vec![11]), (1, vec![10])];
    let joins = vec![vec![vec![10], vec![11]]];
    let r = resolve_routes(&edges, &joins);
    assert!(r.non_routes.is_empty());
    assert_eq!(r.conditions, vec![(11, vec![(1, 2)]), (10, vec![(1, 2)])]);
    let r = resolve_routes(&vec![], &vec![]);
    assert!(r.non_routes.is_empty() && r.conditions.is_empty());
}

#[test]
fn clicks_are_decided() {
    let fixed = NodeCondition::Fixed(true);
    let direct = NodeCondition::Direct(ResetCondition::Never);
    let router = NodeCondition::Router;
    let (a, s) = handle_click(Target::Nothing, ClickType::Primary, fixed, Some((4, 0)), true, 10);
    assert!(matches!(a, ClickAction::Nothing));
    assert_eq!(s, Some((4, 0)));
    let (_, s) = handle_click(Target::Nothing, ClickType::Primary, fixed, Some((4, 0)), false, 10);
    assert_eq!(s, None);
    let (a, s) = handle_click(Target::Node(3), ClickType::Primary, direct, Some((4, 0)), true, 10);
    assert!(matches!(a, ClickAction::ToggleNode(3)));
    assert_eq!(s, None);
    let (a, _) = handle_click(Target::Node(3), ClickType::Primary, fixed, None, true, 10);
    assert!(matches!(a, ClickAction::Nothing));
    let (a, s) = handle_click(Target::Node(3), ClickType::Primary, router, None, true, 10);
    assert!(matches!(a, ClickAction::Nothing));
    assert_eq!(s, Some((3, 10)));
    let (a, s) = handle_click(Target::Node(5), ClickType::Primary, router, Some((3, 10)), true, 3009);
    assert!(matches!(a, ClickAction::Route(3, 5)));
    assert_eq!(s, Some((5, 3009)));
    let (a, s) = handle_click(Target::Node(5), ClickType::Primary, router, Some((3, 10)), true, 3010);
    assert!(matches!(a, ClickAction::Nothing));
    assert_eq!(s, Some((5, 3010)));
    let (a, s) = handle_click(Target::Node(5), ClickType::Auxiliary, router, Some((3, 10)), true, 20);
    assert!(matches!(a, ClickAction::Scratchpad(5)));
    assert_eq!(s, None);
    let (a, _) = handle_click(Target::Block(2), ClickType::Primary, fixed, None, true, 0);
    assert!(matches!(a, ClickAction::SetBlock(2, BlockState::Clear)));
    let (a, _) = handle_click(Target::Block(2), ClickType::Auxiliary, fixed, None, true, 0);
    assert!(matches!(a, ClickAction::SetBlock(2, BlockState::Relax)));
}

#[test]
fn background_is_refreshed_on_change() {
    assert!(is_background_refresh_required(true, (false, false, 0), (false, false, 0)));
    assert!(!is_background_refresh_required(false, (true, true, 2), (true, true, 2)));
    assert!(is_background_refresh_required(false, (true, true, 2), (false, true, 2)));
    assert!(is_background_refresh_required(false, (true, true, 2), (true, false, 2)));
    assert!(is_background_refresh_required(false, (true, true, 2), (true, true, 3)));
}

#[test]
fn grid_is_sampled_by_row_and_column() {
    let mut g = Lookup2d::new(Target::Nothing, 3, 2);
    assert_eq!(g.data.len(), 6);
    assert_eq!(g.width, 3);
    g.data[4] = Target::Node(1);
    g.data[5] = Target::Block(2);
    assert_eq!(*g.sample(1, 1), Target::Node(1));
    assert_eq!(*g.sample(0, 0), Target::Nothing);
    // beyond the grid: the last cell
    assert_eq!(*g.sample(9, 9), Target::Block(2));
    assert_eq!(*g.sample(usize::MAX, usize::MAX), Target::Block(2));
    g.clear(Target::Node(7));
    assert!(g.data.iter().all(|t| *t == Target::Node(7)));
}

#[test]
fn rule_is_picked_by_name_then_wildcard_then_default() {
    let rules = vec![(id_list("a+b"), 1), (id_list(""), 2), (id_list("b+c"), 3), (id_list(""), 4)];
    assert_eq!(rule_for(&rules, &key("a"), 0), 1);
    assert_eq!(rule_for(&rules, &key("b"), 0), 1);
    assert_eq!(rule_for(&rules, &key("c"), 0), 3);
    assert_eq!(rule_for(&rules, &key("d"), 0), 2);
    let named = vec![(id_list("a"), 1)];
    assert_eq!(rule_for(&named, &key("z"), 9), 9);
    assert_eq!(rule_for(&Vec::new(), &key("z"), 9), 9);
}

#[test]
fn preset_groups_are_written_out() {
    let groups = vec![(vec![2, 0], true), (vec![], false), (vec![1], false)];
    assert_eq!(expand_preset(&groups), vec![(2, true), (0, true), (1, false)]);
    assert!(expand_preset::<bool>(&Vec::new()).is_empty());
}

#[test]
fn every_ascending_pair_is_a_route_or_a_non_route() {
    let edges = vec![(3, vec![12]), (1, vec![10]), (2, vec![11]), (4, vec![])];
    let joins = vec![vec![vec![10, 11], vec![12]]];
    let r = resolve_routes(&edges, &joins);
    let nodes = [1usize, 2, 3, 4];
    for a in nodes {
        for b in nodes {
            let pair = (a, b);
            let listed = r.non_routes.contains(&pair);
            let noted = r.conditions.iter().any(|(_, routes)| routes.contains(&pair));
            if a < b {
                assert!(listed != noted, "{:?}", pair);
            } else {
                assert!(!listed && !noted, "{:?}", pair);
            }
        }
    }
}
