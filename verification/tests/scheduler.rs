use std::collections::HashMap;
use sprig::graph::{Arrow, Arrows};
use sprig::scheduler::{SubSorter, SubTask};

#[test]
fn t_110() {
    let task = SubTask { startable: None, deadline: Some(360), priority: None, weight: Some(120), rank: None };
    let mut map = HashMap::new();
    map.insert(0, task);
    let mut sub = SubSorter { cursor: 0, entries: vec![0], arrows: Arrows { arrows: Vec::new() }, map: map };
    sub.exec();
    assert_eq!(
        sub.map[&0],
        SubTask { startable: Some(0), deadline: Some(120), priority: Some(-240), weight: Some(120), rank: Some(0) }
    );
}

#[test]
fn scheduler_chain() {
    let a = SubTask { startable: None, deadline: None, priority: None, weight: Some(60), rank: None };
    let b = SubTask { startable: None, deadline: Some(120), priority: None, weight: Some(60), rank: None };
    let mut map = HashMap::new();
    map.insert(1, a);
    map.insert(2, b);
    let mut sub = SubSorter {
        cursor: 0,
        entries: vec![1, 2],
        arrows: Arrows { arrows: vec![Arrow { source: 1, target: 2 }] },
        map: map,
    };
    sub.exec();
    assert_eq!(sub.map[&1].rank, Some(0));
    assert_eq!(sub.map[&1].priority, Some(0));
    assert_eq!(sub.map[&1].startable, Some(0));
    assert_eq!(sub.map[&1].deadline, Some(60));
    assert_eq!(sub.map[&2].rank, Some(1));
    assert_eq!(sub.map[&2].priority, Some(0));
    assert_eq!(sub.map[&2].startable, Some(60));
    assert_eq!(sub.map[&2].deadline, Some(120));
    assert_eq!(sub.cursor, 120);
    assert!(sub.entries.is_empty());
    assert!(sub.arrows.arrows.is_empty());
}

#[test]
fn scheduler_waits_for_a_start() {
    let a = SubTask { startable: Some(5), deadline: None, priority: None, weight: None, rank: None };
    let mut map = HashMap::new();
    map.insert(7, a);
    let mut sub = SubSorter { cursor: 0, entries: vec![7], arrows: Arrows { arrows: Vec::new() }, map: map };
    assert!(sub.winner().is_none());
    sub.exec();
    assert_eq!(sub.cursor, 5);
    assert_eq!(sub.map[&7].rank, Some(0));
    assert_eq!(sub.map[&7].priority, None);
    assert_eq!(sub.map[&7].startable, Some(5));
    assert_eq!(sub.map[&7].deadline, Some(5));
}

#[test]
fn scheduler_ranks_are_all_different() {
    let t = SubTask { startable: None, deadline: Some(100), priority: None, weight: Some(10), rank: None };
    let mut map = HashMap::new();
    for id in 0..5 {
        map.insert(id, t);
    }
    let arrows = vec![Arrow { source: 0, target: 4 }, Arrow { source: 1, target: 4 }, Arrow { source: 2, target: 3 }];
    let mut sub = SubSorter { cursor: 0, entries: vec![0, 1, 2, 3, 4], arrows: Arrows { arrows }, map: map };
    sub.exec();
    let mut ranks: Vec<usize> = (0..5).map(|id| sub.map[&id].rank.unwrap()).collect();
    ranks.sort();
    assert_eq!(ranks, vec![0, 1, 2, 3, 4]);
    assert!(sub.map[&4].rank.unwrap() > sub.map[&0].rank.unwrap());
    assert!(sub.map[&4].rank.unwrap() > sub.map[&1].rank.unwrap());
    assert!(sub.map[&3].rank.unwrap() > sub.map[&2].rank.unwrap());
    assert_eq!(sub.cursor, 50);
}

#[test]
fn priority_by_takes_the_earliest_deadline_less_the_weights() {
    let mut map = HashMap::new();
    map.insert(1, SubTask { startable: None, deadline: Some(500), priority: None, weight: Some(100), rank: None });
    map.insert(2, SubTask { startable: None, deadline: Some(300), priority: None, weight: Some(50), rank: None });
    map.insert(3, SubTask { startable: None, deadline: None, priority: None, weight: Some(7), rank: None });
    let sub = SubSorter { cursor: 10, entries: vec![1, 2, 3], arrows: Arrows { arrows: Vec::new() }, map: map };
    assert_eq!(sub.priority_by(&vec![1, 2]), Some(10 - (300 - 50 - 100)));
    assert_eq!(sub.priority_by(&vec![2, 1]), Some(10 - (300 - 50)));
    assert_eq!(sub.priority_by(&vec![3]), None);
    assert_eq!(sub.priority_by(&vec![]), None);
}

#[test]
fn slots_follow_the_ranks_and_ranks_follow_the_arrows() {
    let weights: [(i64, Option<i64>, Option<i64>, Option<i64>); 5] = [
        (1, Some(30), None, Some(500)),
        (2, None, Some(40), None),
        (3, Some(20), None, Some(90)),
        (4, Some(10), None, None),
        (5, Some(0), Some(3), Some(400)),
    ];
    let mut map = HashMap::new();
    for (id, weight, startable, deadline) in weights {
        map.insert(id, SubTask { startable, deadline, priority: None, weight, rank: None });
    }
    let arrows = vec![
        Arrow { source: 4, target: 3 },
        Arrow { source: 3, target: 1 },
        Arrow { source: 2, target: 1 },
        Arrow { source: 5, target: 3 },
    ];
    let before = map.clone();
    let mut sub = SubSorter { cursor: 2, entries: vec![1, 2, 3, 4, 5], arrows: Arrows { arrows: arrows.clone() }, map };
    sub.exec();
    assert!(sub.entries.is_empty());
    assert!(sub.arrows.arrows.is_empty());
    let mut by_rank: Vec<i64> = vec![1, 2, 3, 4, 5];
    by_rank.sort_by_key(|id| sub.map[id].rank.unwrap());
    for (rank, id) in by_rank.iter().enumerate() {
        let done = sub.map[id];
        assert_eq!(done.rank, Some(rank));
        assert_eq!(done.weight, before[id].weight);
        assert_eq!(done.deadline.unwrap() - done.startable.unwrap(), before[id].weight.unwrap_or(0));
        assert!(done.startable.unwrap() >= 2);
        if let Some(t) = before[id].startable {
            assert!(done.startable.unwrap() >= t);
        }
    }
    for pair in by_rank.windows(2) {
        assert!(sub.map[&pair[0]].deadline.unwrap() <= sub.map[&pair[1]].startable.unwrap());
    }
    for arrow in arrows {
        assert!(sub.map[&arrow.source].rank.unwrap() < sub.map[&arrow.target].rank.unwrap());
    }
    assert_eq!(sub.map[&by_rank[4]].deadline, Some(sub.cursor));
    assert_eq!(by_rank[4], 1);
    assert_eq!(sub.map[&2].startable, Some(40));
}
