use bars_core::protocol::{Aerodrome, BlockState, Patch};
use bars_core::strmap::StrMap;

fn key(s: &str) -> String {
    s.to_string()
}

fn patch(profile: Option<&str>, nodes: &[(&str, bool)], blocks: &[(&str, BlockState)]) -> Patch {
    let mut n = StrMap::new();
    for (k, v) in nodes {
        n.insert(key(k), *v);
    }
    let mut b = StrMap::new();
    for (k, v) in blocks {
        b.insert(key(k), v.clone());
    }
    Patch { profile: profile.map(key), nodes: n, blocks: b }
}

#[test]
fn empty_patch_is_empty() {
    let patch = Patch::default();
    assert!(patch.is_empty());
}

#[test]
fn patch_with_a_node_is_not_empty() {
    assert!(!patch(None, &[("n1", true)], &[]).is_empty());
}

#[test]
fn patch_with_a_block_is_not_empty() {
    assert!(!patch(None, &[], &[("b1", BlockState::Relax)]).is_empty());
}

#[test]
fn patch_with_a_profile_is_not_empty() {
    assert!(!patch(Some("day"), &[], &[]).is_empty());
}

#[test]
fn later_patch_wins_per_key() {
    let mut a = patch(Some("day"), &[("n1", true), ("n2", false)], &[("b1", BlockState::Clear)]);
    let b = patch(None, &[("n2", true), ("n3", true)], &[("b1", BlockState::Relax)]);
    a.apply_patch(b);
    assert_eq!(a.profile, Some(key("day")));
    assert_eq!(a.nodes.len(), 3);
    assert_eq!(a.nodes.get(&key("n1")), Some(&true));
    assert_eq!(a.nodes.get(&key("n2")), Some(&true));
    assert_eq!(a.nodes.get(&key("n3")), Some(&true));
    assert!(a.blocks.get(&key("b1")) == Some(&BlockState::Relax));
}

#[test]
fn later_profile_overrides() {
    let mut a = patch(Some("day"), &[], &[]);
    a.apply_patch(patch(Some("night"), &[], &[]));
    assert_eq!(a.profile, Some(key("night")));
}

#[test]
fn applying_two_patches_is_applying_their_merge() {
    let a = || patch(Some("day"), &[("n1", true), ("n2", false)], &[("b1", BlockState::Clear)]);
    let b = || {
        patch(
            None,
            &[("n2", true)],
            &[("b1", BlockState::Route((key("n1"), key("n2")))), ("b2", BlockState::Relax)],
        )
    };
    let mut one = Aerodrome::new(key("base"));
    one.set_node(key("n9"), true);
    let mut two = Aerodrome::new(key("base"));
    two.set_node(key("n9"), true);
    one.apply_patch(a());
    one.apply_patch(b());
    let mut merged = a();
    merged.apply_patch(b());
    two.apply_patch(merged);
    assert_eq!(one.profile(), two.profile());
    assert_eq!(one.profile(), &key("day"));
    for k in ["n1", "n2", "n9", "zz"] {
        assert_eq!(one.nodes().get(&key(k)), two.nodes().get(&key(k)));
    }
    for k in ["b1", "b2", "zz"] {
        assert!(one.blocks().get(&key(k)) == two.blocks().get(&key(k)));
    }
    assert_eq!(one.nodes().get(&key("n2")), Some(&true));
    assert!(one.blocks().get(&key("b1")) == Some(&BlockState::Route((key("n1"), key("n2")))));
}

#[test]
fn snapshot_records_local_changes() {
    let mut a = Aerodrome::new(key("day"));
    assert!(a.take_patch().is_none());
    a.set_node(key("n1"), true);
    a.set_block(key("b1"), BlockState::Relax);
    a.set_profile(key("night"));
    let p = a.take_patch().unwrap();
    assert_eq!(p.profile, Some(key("night")));
    assert_eq!(p.nodes.get(&key("n1")), Some(&true));
    assert!(p.blocks.get(&key("b1")) == Some(&BlockState::Relax));
    assert!(a.take_patch().is_none());
    assert_eq!(a.profile(), &key("night"));
    assert_eq!(a.nodes().get(&key("n1")), Some(&true));
}

#[test]
fn applying_a_patch_records_nothing() {
    let mut a = Aerodrome::new(key("day"));
    a.apply_patch(patch(Some("night"), &[("n1", false)], &[]));
    assert!(a.take_patch().is_none());
    assert_eq!(a.profile(), &key("night"));
    assert_eq!(a.nodes().get(&key("n1")), Some(&false));
}

#[test]
fn patch_from_snapshot_says_everything() {
    let mut a = Aerodrome::new(key("day"));
    a.set_node(key("n1"), true);
    a.set_block(key("b1"), BlockState::Clear);
    let p = Patch::from(a);
    assert_eq!(p.profile, Some(key("day")));
    assert_eq!(p.nodes.get(&key("n1")), Some(&true));
    assert!(p.blocks.get(&key("b1")) == Some(&BlockState::Clear));
}

#[test]
fn map_keeps_insertion_order_and_replaces() {
    let mut m: StrMap<bool> = StrMap::new();
    assert!(m.is_empty());
    m.insert(key("a"), true);
    m.insert(key("b"), false);
    m.insert(key("a"), false);
    assert_eq!(m.len(), 2);
    assert_eq!(m.key_at(0), &key("a"));
    assert_eq!(m.value_at(0), &false);
    assert_eq!(m.key_at(1), &key("b"));
    assert!(m.contains_key(&key("b")));
    assert_eq!(m.remove(&key("a")), Some(false));
    assert_eq!(m.remove(&key("a")), None);
    assert_eq!(m.len(), 1);
    m.clear();
    assert!(m.is_empty());
}

#[test]
fn map_clone_is_equal() {
    let p = patch(Some("day"), &[("n1", true)], &[("b1", BlockState::Route((key("a"), key("b"))))]);
    let q = p.clone();
    assert_eq!(q.profile, Some(key("day")));
    assert_eq!(q.nodes.get(&key("n1")), Some(&true));
    assert!(q.blocks.get(&key("b1")) == Some(&BlockState::Route((key("a"), key("b")))));
}
