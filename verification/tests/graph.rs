use sprig::graph::{Arrow, Arrows, Tid, LR};

fn arrows(pairs: &[(i64, i64)]) -> Arrows {
    Arrows { arrows: pairs.iter().map(|p| Arrow { source: p.0, target: p.1 }).collect() }
}

#[test]
fn cycle_of_three() {
    let g = arrows(&[(1, 2), (2, 3), (3, 1)]);
    assert!(g.has_cycle());
}

#[test]
fn no_arrows_no_cycle() {
    assert!(!arrows(&[]).has_cycle());
    assert!(arrows(&[]).nodes().is_empty());
    assert!(arrows(&[]).paths().is_empty());
}

#[test]
fn cycle_behind_a_leaf() {
    let g = arrows(&[(0, 1), (1, 2), (2, 1)]);
    assert_eq!(g.list(LR::Leaf), vec![0]);
    assert!(g.list(LR::Root).is_empty());
    assert!(g.has_cycle());
    let h = arrows(&[(0, 1), (1, 2), (2, 1), (2, 5)]);
    assert_eq!(h.list(LR::Root), vec![5]);
    assert!(Tid::from(0).paths_to(LR::Root, &h).is_empty());
    assert!(h.has_cycle());
}

#[test]
fn paths_through_a_diamond() {
    let g = arrows(&[(1, 2), (1, 3), (2, 4), (3, 4)]);
    assert_eq!(Tid::from(1).paths_to(LR::Root, &g), vec![vec![1, 3, 4], vec![1, 2, 4]]);
    assert_eq!(Tid::from(4).paths_to(LR::Leaf, &g), vec![vec![4, 3, 1], vec![4, 2, 1]]);
    assert_eq!(Tid::from(9).paths_to(LR::Root, &g), vec![vec![9]]);
    assert_eq!(Tid::from(1).nodes_to(LR::Root, &g), vec![1, 2, 3, 4]);
    assert_eq!(Tid::from(2).nodes_to(LR::Leaf, &g), vec![1, 2]);
    assert_eq!(g.nodes(), vec![1, 2, 3, 4]);
    assert_eq!(g.list(LR::Leaf), vec![1]);
    assert_eq!(g.list(LR::Root), vec![4]);
    assert_eq!(g.paths(), vec![vec![1, 3, 4], vec![1, 2, 4]]);
    assert!(!g.has_cycle());
}

#[test]
fn map_to_both_ways() {
    let g = arrows(&[(1, 2), (1, 3), (2, 3)]);
    let to_root = g.map_to(LR::Root);
    assert_eq!(to_root[&1], vec![2, 3]);
    assert_eq!(to_root[&2], vec![3]);
    assert!(!to_root.contains_key(&3));
    let to_leaf = g.map_to(LR::Leaf);
    assert_eq!(to_leaf[&3], vec![1, 2]);
    assert_eq!(to_leaf[&2], vec![1]);
    assert!(!to_leaf.contains_key(&1));
}

#[test]
fn ends_of_an_arrow() {
    let a = Arrow { source: 5, target: 8 };
    assert_eq!(a.trace_to(LR::Leaf), 5);
    assert_eq!(a.trace_to(LR::Root), 8);
    assert_eq!(LR::Leaf.not(), LR::Root);
    assert_eq!(LR::Root.not(), LR::Leaf);
    let g = arrows(&[(5, 8)]);
    assert!(Tid::from(5).is(LR::Leaf, &g));
    assert!(!Tid::from(5).is(LR::Root, &g));
    assert!(Tid::from(8).is(LR::Root, &g));
    assert!(Tid::from(1).is(LR::Leaf, &g) && Tid::from(1).is(LR::Root, &g));
}
