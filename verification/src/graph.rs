//! The dependency graph: arrows between task ids, what lies next to a node,
//! which nodes are leaves and roots, and the paths that lead from one to the other.

use std::collections::HashMap;
use vstd::prelude::*;
use vstd::std_specs::convert::FromSpecImpl;
use crate::sorted::{strictly_sorted, insert_sorted, contains_id, lemma_sorted_unique, lemma_push_contains};

verus! {

broadcast use vstd::std_specs::hash::group_hash_axioms;

/// A dependency: `source` has to be done before `target` can be.
#[derive(Debug, PartialEq, Eq, Clone, Copy, Structural)]
pub struct Arrow {
    pub source: i64,
    pub target: i64,
}

/// The arrows of a graph, in the order in which they were given.
#[derive(Debug, PartialEq, Eq, Clone)]
pub struct Arrows {
    pub arrows: Vec<Arrow>,
}

/// The two ends of the graph: a leaf is where work starts, a root is a final goal.
#[derive(Debug, PartialEq, Eq, Clone, Copy, Structural)]
pub enum LR {
    Leaf,
    Root,
}

/// A task id, as a node of the graph.
#[derive(Debug, PartialEq, Eq, Clone, Copy, Structural)]
pub struct Tid {
    pub id: i64,
}

/// The nodes passed on the way from a node towards one end of the graph.
pub type Path = Vec<i64>;

impl View for Arrows {
    type V = Seq<Arrow>;

    open spec fn view(&self) -> Seq<Arrow> {
        self.arrows@
    }
}

impl LR {
    /// The other end.
    pub open spec fn flip(self) -> LR {
        match self {
            LR::Leaf => LR::Root,
            LR::Root => LR::Leaf,
        }
    }
}

impl LR {
    /// The other end.
    pub fn not(self) -> (other: LR)
        ensures
            other == self.flip(),
    {
        match self {
            LR::Leaf => LR::Root,
            LR::Root => LR::Leaf,
        }
    }
}

impl Arrow {
    /// The end of the arrow that lies towards `lr`.
    pub open spec fn side(self, lr: LR) -> i64 {
        match lr {
            LR::Leaf => self.source,
            LR::Root => self.target,
        }
    }

    /// The end of the arrow that lies towards `lr`: its source for `Leaf`, its target for `Root`.
    pub fn trace_to(&self, lr: LR) -> (id: i64)
        ensures
            id == self.side(lr),
    {
        match lr {
            LR::Leaf => self.source,
            LR::Root => self.target,
        }
    }
}

impl Arrow {
    /// `id` is one of the arrow's two ends.
    pub open spec fn touches(self, id: i64) -> bool {
        self.source == id || self.target == id
    }
}

/// `id` is an end of one of the arrows.
pub open spec fn is_node(arrows: Seq<Arrow>, id: i64) -> bool {
    exists|k: int| 0 <= k < arrows.len() && (#[trigger] arrows[k]).touches(id)
}

/// No arrow leads from `id` any further towards `lr`'s opposite: `id` is
/// a leaf (for `Leaf`) or a root (for `Root`). A node that no arrow touches is both.
pub open spec fn is_end(arrows: Seq<Arrow>, lr: LR, id: i64) -> bool {
    forall|k: int| 0 <= k < arrows.len() ==> (#[trigger] arrows[k]).side(lr.flip()) != id
}

/// The nodes that lie one arrow further from `id` towards `lr`, in the arrows' order.
pub open spec fn successors(arrows: Seq<Arrow>, lr: LR, id: i64) -> Seq<i64>
    decreases arrows.len(),
{
    if arrows.len() == 0 {
        Seq::empty()
    } else {
        let before = successors(arrows.drop_last(), lr, id);
        if arrows.last().side(lr.flip()) == id {
            before.push(arrows.last().side(lr))
        } else {
            before
        }
    }
}

/// `map` holds, for each node that has any, its successors towards `lr`.
pub open spec fn adjacency(map: Map<i64, Vec<i64>>, arrows: Seq<Arrow>, lr: LR) -> bool {
    forall|id: i64|
        {
            &&& map.contains_key(id) <==> (#[trigger] successors(arrows, lr, id)).len() > 0
            &&& map.contains_key(id) ==> map[id]@ == successors(arrows, lr, id)
        }
}

/// The paths that continue `path` towards `lr` until no arrow leads on, those
/// through the last successor first; `None` where one of them comes back to a
/// node that it has passed.
pub open spec fn walks(arrows: Seq<Arrow>, lr: LR, path: Seq<i64>) -> Option<Seq<Seq<i64>>>
    decreases arrows.len() + 1 - path.len(), 1int, 0int,
{
    if path.len() == 0 {
        None
    } else {
        let next = successors(arrows, lr, path.last());
        if next.len() == 0 {
            Some(seq![path])
        } else if path.len() > arrows.len() {
            // A path that passes no node twice has passed every node by now.
            None
        } else {
            branches(arrows, lr, path, next, next.len() as int)
        }
    }
}

/// The paths that continue `path` through `next[k - 1]`, then through `next[k - 2]`,
/// and so on down to `next[0]`; `None` where one of them closes a cycle.
pub open spec fn branches(arrows: Seq<Arrow>, lr: LR, path: Seq<i64>, next: Seq<i64>, k: int) -> Option<
    Seq<Seq<i64>>,
>
    decreases arrows.len() + 1 - path.len(), 0int, k,
{
    if k <= 0 || k > next.len() || path.len() > arrows.len() {
        Some(Seq::empty())
    } else if path.contains(next[k - 1]) {
        None
    } else {
        join(walks(arrows, lr, path.push(next[k - 1])), branches(arrows, lr, path, next, k - 1))
    }
}

/// The paths of `first` followed by those of `rest`, unless either met a cycle.
pub open spec fn join(first: Option<Seq<Seq<i64>>>, rest: Option<Seq<Seq<i64>>>) -> Option<Seq<Seq<i64>>> {
    match (first, rest) {
        (Some(a), Some(b)) => Some(a + b),
        _ => None,
    }
}

/// Every path from `id` towards `lr` that ends where no arrow leads on; none
/// at all where a cycle can be reached from `id`.
pub open spec fn paths_from(arrows: Seq<Arrow>, lr: LR, id: i64) -> Seq<Seq<i64>> {
    match walks(arrows, lr, seq![id]) {
        Some(paths) => paths,
        None => Seq::empty(),
    }
}

/// What a list of paths holds.
pub open spec fn paths_view(paths: Seq<Vec<i64>>) -> Seq<Seq<i64>> {
    paths.map_values(|p: Vec<i64>| p@)
}

/// The nodes that are leaves (or roots), in ascending order.
pub open spec fn ends(arrows: Seq<Arrow>, lr: LR) -> Seq<i64> {
    choose|s: Seq<i64>| is_listing(arrows, lr, s)
}

/// `s` lists the nodes that are leaves (or roots), in ascending order.
pub open spec fn is_listing(arrows: Seq<Arrow>, lr: LR, s: Seq<i64>) -> bool {
    &&& strictly_sorted(s)
    &&& forall|id: i64| s.contains(id) <==> is_node(arrows, id) && is_end(arrows, lr, id)
}

/// The paths from each of the first `n` nodes of `from` towards `lr`, one node after the other.
pub open spec fn paths_of(arrows: Seq<Arrow>, lr: LR, from: Seq<i64>, n: int) -> Seq<Seq<i64>>
    decreases n,
{
    if n <= 0 || n > from.len() {
        Seq::empty()
    } else {
        paths_of(arrows, lr, from, n - 1) + paths_from(arrows, lr, from[n - 1])
    }
}

/// Whether the arrows are taken to hold a cycle: there are arrows, and there
/// is no leaf, or no root, or a leaf from which no path reaches a root.
pub open spec fn cyclic(arrows: Seq<Arrow>) -> bool {
    &&& arrows.len() > 0
    &&& {
        ||| ends(arrows, LR::Leaf).len() == 0
        ||| ends(arrows, LR::Root).len() == 0
        ||| exists|k: int|
            0 <= k < ends(arrows, LR::Leaf).len() && (#[trigger] paths_from(
                arrows,
                LR::Root,
                ends(arrows, LR::Leaf)[k],
            )).len() == 0
    }
}

/// `id` lies on one of the paths.
pub open spec fn on_paths(paths: Seq<Seq<i64>>, id: i64) -> bool {
    exists|k: int| 0 <= k < paths.len() && (#[trigger] paths[k]).contains(id)
}

/// Every arrow leads from its source to a target on a higher level.
pub open spec fn rising(arrows: Seq<Arrow>, level: spec_fn(i64) -> int) -> bool {
    forall|k: int| 0 <= k < arrows.len() ==> level((#[trigger] arrows[k]).source) < level(arrows[k].target)
}

/// The arrows hold no cycle: the nodes can be put on levels so that every
/// arrow leads upwards.
pub open spec fn is_dag(arrows: Seq<Arrow>) -> bool {
    exists|level: spec_fn(i64) -> int| rising(arrows, level)
}

proof fn lemma_lowest(ids: Seq<i64>, level: spec_fn(i64) -> int) -> (m: int)
    requires
        ids.len() > 0,
    ensures
        0 <= m < ids.len(),
        forall|j: int| 0 <= j < ids.len() ==> level(ids[m]) <= level(#[trigger] ids[j]),
    decreases ids.len(),
{
    if ids.len() == 1 {
        0
    } else {
        let front = ids.drop_last();
        let m = lemma_lowest(front, level);
        let last = ids.len() - 1;
        if level(ids[last]) < level(front[m]) {
            assert forall|j: int| 0 <= j < ids.len() implies level(ids[last]) <= level(#[trigger] ids[j]) by {
                if j < last {
                    assert(front[j] == ids[j]);
                }
            }
            last
        } else {
            assert forall|j: int| 0 <= j < ids.len() implies level(ids[m]) <= level(#[trigger] ids[j]) by {
                if j < last {
                    assert(front[j] == ids[j]);
                }
            }
            m
        }
    }
}

/// Where no cycle is, and every arrow starts from one of the nodes
/// `among`, one of these nodes is a leaf.
pub proof fn lemma_dag_has_leaf(among: Seq<i64>, arrows: Seq<Arrow>) -> (m: int)
    requires
        among.len() > 0,
        is_dag(arrows),
        forall|k: int| 0 <= k < arrows.len() ==> among.contains((#[trigger] arrows[k]).source),
    ensures
        0 <= m < among.len(),
        is_end(arrows, LR::Leaf, among[m]),
{
    let level = choose|level: spec_fn(i64) -> int| rising(arrows, level);
    let m = lemma_lowest(among, level);
    assert forall|k: int| 0 <= k < arrows.len() implies (#[trigger] arrows[k]).side(LR::Leaf.flip()) != among[m] by {
        if arrows[k].target == among[m] {
            let src = arrows[k].source;
            assert(among.contains(src));
            let j = choose|j: int| 0 <= j < among.len() && among[j] == src;
            assert(level(among[m]) <= level(among[j]));
        }
    }
    m
}

/// An arrow leads to `node` from one of the nodes `left`.
pub open spec fn fed(arrows: Seq<Arrow>, left: Seq<i64>, node: i64) -> bool {
    exists|k: int| 0 <= k < arrows.len() && left.contains((#[trigger] arrows[k]).source) && arrows[k].target == node
}

/// The nodes `left` and the levels given so far are a stage on the way
/// to levels for all: an arrow whose source has its level leads to a node
/// that is still left or has a higher level, and no arrow leads from a node
/// that is left to one that is not.
pub open spec fn staged(arrows: Seq<Arrow>, left: Seq<i64>, level: Map<i64, int>, round: int) -> bool {
    &&& forall|x: i64| #[trigger] level.contains_key(x) ==> level[x] < round && !left.contains(x)
    &&& forall|k: int|
        0 <= k < arrows.len() ==> {
            let a = #[trigger] arrows[k];
            &&& left.contains(a.source) || level.contains_key(a.source)
            &&& left.contains(a.target) || level.contains_key(a.target)
            &&& left.contains(a.source) ==> left.contains(a.target)
            &&& !left.contains(a.source) ==> left.contains(a.target) || level[a.source] < level[a.target]
        }
}

/// No path that `walks` finds is longer than the arrows allow: it passes no node twice.
pub proof fn lemma_walks_len(arrows: Seq<Arrow>, lr: LR, path: Seq<i64>)
    requires
        path.len() <= arrows.len() + 1,
    ensures
        walks(arrows, lr, path) is Some ==> forall|i: int|
            0 <= i < walks(arrows, lr, path)->0.len() ==> 0 < (#[trigger] walks(arrows, lr, path)->0[i]).len()
                <= arrows.len() + 1,
    decreases arrows.len() + 1 - path.len(), 1int, 0int,
{
    if path.len() > 0 {
        let next = successors(arrows, lr, path.last());
        if next.len() > 0 && path.len() <= arrows.len() {
            lemma_branches_len(arrows, lr, path, next, next.len() as int);
        }
    }
}

proof fn lemma_branches_len(arrows: Seq<Arrow>, lr: LR, path: Seq<i64>, next: Seq<i64>, k: int)
    requires
        0 < path.len() <= arrows.len(),
    ensures
        branches(arrows, lr, path, next, k) is Some ==> forall|i: int|
            0 <= i < branches(arrows, lr, path, next, k)->0.len() ==> 0 < (#[trigger] branches(
                arrows,
                lr,
                path,
                next,
                k,
            )->0[i]).len() <= arrows.len() + 1,
    decreases arrows.len() + 1 - path.len(), 0int, k,
{
    if k <= 0 || k > next.len() {
    } else if path.contains(next[k - 1]) {
    } else {
        lemma_walks_len(arrows, lr, path.push(next[k - 1]));
        lemma_branches_len(arrows, lr, path, next, k - 1);
    }
}

/// No path from a node is empty, and none is longer than the arrows allow.
pub proof fn lemma_paths_len(arrows: Seq<Arrow>, lr: LR, id: i64)
    ensures
        forall|i: int|
            0 <= i < paths_from(arrows, lr, id).len() ==> 0 < (#[trigger] paths_from(arrows, lr, id)[i]).len()
                <= arrows.len() + 1,
{
    lemma_walks_len(arrows, lr, seq![id]);
}

impl From<Vec<Arrow>> for Arrows {
    fn from(arrows: Vec<Arrow>) -> (graph: Arrows)
        ensures
            graph.arrows == arrows,
    {
        Arrows { arrows }
    }
}

impl FromSpecImpl<Vec<Arrow>> for Arrows {
    open spec fn obeys_from_spec() -> bool {
        true
    }

    open spec fn from_spec(arrows: Vec<Arrow>) -> Arrows {
        Arrows { arrows }
    }
}

impl From<i64> for Tid {
    fn from(id: i64) -> (tid: Tid)
        ensures
            tid.id == id,
    {
        Tid { id }
    }
}

impl FromSpecImpl<i64> for Tid {
    open spec fn obeys_from_spec() -> bool {
        true
    }

    open spec fn from_spec(id: i64) -> Tid {
        Tid { id }
    }
}

proof fn lemma_successors_step(arrows: Seq<Arrow>, lr: LR, n: int, id: i64)
    requires
        0 <= n < arrows.len(),
    ensures
        successors(arrows.take(n + 1), lr, id) == if arrows[n].side(lr.flip()) == id {
            successors(arrows.take(n), lr, id).push(arrows[n].side(lr))
        } else {
            successors(arrows.take(n), lr, id)
        },
{
    assert(arrows.take(n + 1).drop_last() =~= arrows.take(n));
}

proof fn lemma_on_paths_push(paths: Seq<Seq<i64>>, path: Seq<i64>, id: i64)
    ensures
        on_paths(paths.push(path), id) <==> (on_paths(paths, id) || path.contains(id)),
{
    let more = paths.push(path);
    if on_paths(more, id) {
        let k = choose|k: int| 0 <= k < more.len() && (#[trigger] more[k]).contains(id);
        if k < paths.len() {
            assert(paths[k].contains(id));
        }
    }
    if on_paths(paths, id) {
        let k = choose|k: int| 0 <= k < paths.len() && (#[trigger] paths[k]).contains(id);
        assert(more[k].contains(id));
    }
    if path.contains(id) {
        assert(more[paths.len() as int].contains(id));
    }
}

proof fn lemma_paths_view_add(a: Seq<Vec<i64>>, b: Seq<Vec<i64>>)
    ensures
        paths_view(a + b) == paths_view(a) + paths_view(b),
{
    assert(paths_view(a + b) =~= paths_view(a) + paths_view(b));
}

/// The listing of the leaves (or roots) is the one list that `is_listing` describes.
pub proof fn lemma_ends(arrows: Seq<Arrow>, lr: LR, s: Seq<i64>)
    requires
        is_listing(arrows, lr, s),
    ensures
        ends(arrows, lr) == s,
{
    let e = ends(arrows, lr);
    assert(is_listing(arrows, lr, e));
    lemma_sorted_unique(e, s);
}

impl Arrows {
    /// For each node that has any, the nodes one arrow further towards `lr`:
    /// from target to sources for `Leaf`, from source to targets for `Root`.
    pub fn map_to(&self, lr: LR) -> (map: HashMap<i64, Vec<i64>>)
        ensures
            adjacency(map@, self@, lr),
    {
        let mut map: HashMap<i64, Vec<i64>> = HashMap::new();
        let mut i: usize = 0;
        while i < self.arrows.len()
            invariant
                i <= self.arrows.len(),
                adjacency(map@, self@.take(i as int), lr),
            decreases self.arrows.len() - i,
        {
            let arw = self.arrows[i];
            let key = arw.trace_to(lr.not());
            let val = arw.trace_to(lr);
            let ghost before = map@;
            let found = map.remove(&key);
            let mut list = match found {
                Some(list) => list,
                None => Vec::new(),
            };
            list.push(val);
            map.insert(key, list);
            proof {
                assert forall|id: i64|
                    {
                        &&& map@.contains_key(id) <==> (#[trigger] successors(
                            self@.take(i + 1),
                            lr,
                            id,
                        )).len() > 0
                        &&& map@.contains_key(id) ==> map@[id]@ == successors(self@.take(i + 1), lr, id)
                    } by {
                    lemma_successors_step(self@, lr, i as int, id);
                    let s = successors(self@.take(i as int), lr, id);
                    assert(before.contains_key(id) <==> s.len() > 0);
                }
            }
            i += 1;
        }
        assert(self@.take(i as int) =~= self@);
        map
    }

    /// Every node that an arrow touches, in ascending order.
    pub fn nodes(&self) -> (ids: Vec<i64>)
        ensures
            strictly_sorted(ids@),
            forall|id: i64| ids@.contains(id) <==> is_node(self@, id),
    {
        let mut ids: Vec<i64> = Vec::new();
        let mut i: usize = 0;
        while i < self.arrows.len()
            invariant
                i <= self.arrows.len(),
                strictly_sorted(ids@),
                forall|id: i64|
                    #![trigger ids@.contains(id)]
                    ids@.contains(id) <==> is_node(self@.take(i as int), id),
            decreases self.arrows.len() - i,
        {
            let arw = self.arrows[i];
            let ghost before = ids@;
            insert_sorted(&mut ids, arw.target);
            insert_sorted(&mut ids, arw.source);
            proof {
                let short = self@.take(i as int);
                let long = self@.take(i + 1);
                assert(long.len() == i + 1 && short.len() == i);
                assert(long[i as int] == arw);
                assert forall|id: i64| ids@.contains(id) <==> is_node(long, id) by {
                    if is_node(long, id) {
                        let k = choose|k: int| 0 <= k < long.len() && (#[trigger] long[k]).touches(id);
                        if k < i {
                            assert(short[k].touches(id));
                        }
                    }
                    if is_node(short, id) {
                        let k = choose|k: int| 0 <= k < short.len() && (#[trigger] short[k]).touches(id);
                        assert(long[k].touches(id));
                    }
                    if id == arw.target || id == arw.source {
                        assert(long[i as int].touches(id));
                    }
                }
            }
            i += 1;
        }
        assert(self@.take(i as int) =~= self@);
        ids
    }

    /// The leaves (or the roots) among the nodes, in ascending order.
    pub fn list(&self, lr: LR) -> (ids: Vec<i64>)
        ensures
            ids@ == ends(self@, lr),
            is_listing(self@, lr, ids@),
    {
        let all = self.nodes();
        let mut ids: Vec<i64> = Vec::new();
        let mut i: usize = 0;
        while i < all.len()
            invariant
                i <= all.len(),
                strictly_sorted(all@),
                forall|id: i64| all@.contains(id) <==> is_node(self@, id),
                strictly_sorted(ids@),
                forall|k: int| 0 <= k < ids@.len() ==> i > 0 && ids@[k] <= all@[i - 1],
                forall|id: i64|
                    #![trigger ids@.contains(id)]
                    ids@.contains(id) <==> all@.take(i as int).contains(id) && is_end(self@, lr, id),
            decreases all.len() - i,
        {
            let id = all[i];
            let ghost before = ids@;
            if (Tid { id }).is(lr, self) {
                ids.push(id);
            }
            proof {
                let short = all@.take(i as int);
                assert(all@.take(i + 1) =~= short.push(id));
                assert forall|x: i64|
                    ids@.contains(x) <==> short.push(id).contains(x) && is_end(self@, lr, x) by {
                    lemma_push_contains(short, id, x);
                    lemma_push_contains(before, id, x);
                    assert(before.contains(x) <==> short.contains(x) && is_end(self@, lr, x));
                }
            }
            i += 1;
        }
        proof {
            assert(all@.take(i as int) =~= all@);
            lemma_ends(self@, lr, ids@);
        }
        ids
    }

    /// The paths from every leaf to the roots, leaf after leaf in ascending order.
    pub fn paths(&self) -> (paths: Vec<Path>)
        ensures
            paths_view(paths@) == paths_of(self@, LR::Root, ends(self@, LR::Leaf), ends(self@, LR::Leaf).len() as int),
    {
        let leaves = self.list(LR::Leaf);
        let mut paths: Vec<Path> = Vec::new();
        let mut i: usize = 0;
        assert(paths_view(paths@) =~= Seq::<Seq<i64>>::empty());
        while i < leaves.len()
            invariant
                i <= leaves.len(),
                leaves@ == ends(self@, LR::Leaf),
                paths_view(paths@) == paths_of(self@, LR::Root, leaves@, i as int),
            decreases leaves.len() - i,
        {
            let mut more = Tid::from(leaves[i]).paths_to(LR::Root, self);
            proof {
                lemma_paths_view_add(paths@, more@);
            }
            paths.append(&mut more);
            i += 1;
        }
        paths
    }

    /// Whether the arrows hold no cycle. Node after node is taken out
    /// that no arrow leads to from a node still there; there is no cycle
    /// where all nodes can be taken out so.
    pub fn acyclic(&self) -> (yes: bool)
        ensures
            yes == is_dag(self@),
    {
        let mut left = self.nodes();
        let ghost mut level: Map<i64, int> = Map::empty();
        let ghost mut round: int = 0;
        while left.len() > 0
            invariant
                strictly_sorted(left@),
                staged(self@, left@, level, round),
            decreases left.len(),
        {
            let mut i: usize = 0;
            let mut found = false;
            while i < left.len() && !found
                invariant
                    i <= left.len(),
                    found ==> i < left.len() && !fed(self@, left@, left@[i as int]),
                    !found ==> forall|j: int| 0 <= j < i ==> fed(self@, left@, #[trigger] left@[j]),
                decreases left.len() - i, if found { 0int } else { 1int },
            {
                let node = left[i];
                let mut k: usize = 0;
                let mut free = true;
                while k < self.arrows.len() && free
                    invariant
                        k <= self.arrows.len(),
                        i < left.len(),
                        node == left@[i as int],
                        free ==> forall|j: int|
                            0 <= j < k ==> !(left@.contains((#[trigger] self@[j]).source) && self@[j].target == node),
                        !free ==> fed(self@, left@, node),
                    decreases self.arrows.len() - k, if free { 1int } else { 0int },
                {
                    let arrow = self.arrows[k];
                    if arrow.target == node && contains_id(&left, arrow.source) {
                        assert(left@.contains(self@[k as int].source) && self@[k as int].target == node);
                        free = false;
                    } else {
                        k += 1;
                    }
                }
                if free {
                    found = true;
                } else {
                    i += 1;
                }
            }
            if !found {
                proof {
                    if is_dag(self@) {
                        let up = choose|up: spec_fn(i64) -> int| rising(self@, up);
                        let m = lemma_lowest(left@, up);
                        assert(fed(self@, left@, left@[m]));
                        let k = choose|k: int|
                            0 <= k < self@.len() && left@.contains((#[trigger] self@[k]).source) && self@[k].target
                                == left@[m];
                        let src = self@[k].source;
                        let j = choose|j: int| 0 <= j < left@.len() && left@[j] == src;
                        assert(up(left@[m]) <= up(left@[j]));
                        assert(up(self@[k].source) < up(self@[k].target));
                    }
                }
                return false;
            }
            let node = left[i];
            let ghost before = left@;
            left.remove(i);
            proof {
                assert forall|x: i64| left@.contains(x) <==> before.contains(x) && x != node by {
                    if left@.contains(x) {
                        let j = choose|j: int| 0 <= j < left@.len() && left@[j] == x;
                        if j < i {
                            assert(before[j] == x);
                        } else {
                            assert(before[j + 1] == x);
                        }
                    }
                    if before.contains(x) && x != node {
                        let j = choose|j: int| 0 <= j < before.len() && before[j] == x;
                        if j < i {
                            assert(left@[j] == x);
                        } else {
                            assert(left@[j - 1] == x);
                        }
                    }
                }
                assert forall|a: int, b: int| 0 <= a < b < left@.len() implies left@[a] < left@[b] by {
                    let x = if a < i { a } else { a + 1 };
                    let y = if b < i { b } else { b + 1 };
                    assert(before[x] < before[y]);
                }
                assert(before.contains(node));
                let higher = level.insert(node, round);
                assert forall|k: int| 0 <= k < self@.len() implies {
                    let a = #[trigger] self@[k];
                    &&& left@.contains(a.source) || higher.contains_key(a.source)
                    &&& left@.contains(a.target) || higher.contains_key(a.target)
                    &&& left@.contains(a.source) ==> left@.contains(a.target)
                    &&& !left@.contains(a.source) ==> left@.contains(a.target) || higher[a.source] < higher[a.target]
                } by {
                    let a = self@[k];
                    assert(!(before.contains(self@[k].source) && self@[k].target == node));
                }
                level = higher;
                round = round + 1;
            }
        }
        proof {
            let up = |x: i64| level[x];
            assert forall|k: int| 0 <= k < self@.len() implies up((#[trigger] self@[k]).source) < up(
                self@[k].target,
            ) by {
                assert(!left@.contains(self@[k].source));
                assert(!left@.contains(self@[k].target));
            }
            assert(rising(self@, up));
        }
        true
    }

    /// Whether the arrows are taken to hold a cycle (see `cyclic`).
    pub fn has_cycle(&self) -> (found: bool)
        ensures
            found == cyclic(self@),
    {
        if self.arrows.is_empty() {
            return false;
        }
        let leaves = self.list(LR::Leaf);
        let roots = self.list(LR::Root);
        if leaves.is_empty() || roots.is_empty() {
            return true;
        }
        let mut i: usize = 0;
        while i < leaves.len()
            invariant
                i <= leaves.len(),
                leaves@ == ends(self@, LR::Leaf),
                forall|k: int| 0 <= k < i ==> (#[trigger] paths_from(self@, LR::Root, leaves@[k])).len() > 0,
            decreases leaves.len() - i,
        {
            let paths = Tid::from(leaves[i]).paths_to(LR::Root, self);
            if paths.is_empty() {
                assert(paths_view(paths@).len() == 0);
                return true;
            }
            assert(paths_view(paths@).len() > 0);
            i += 1;
        }
        false
    }
}

impl Tid {
    /// Whether this node is a leaf (or a root) of `arrows`: no arrow has it on
    /// the opposite side. A node that no arrow touches is both.
    pub fn is(&self, lr: LR, arrows: &Arrows) -> (yes: bool)
        ensures
            yes == is_end(arrows@, lr, self.id),
    {
        let mut i: usize = 0;
        while i < arrows.arrows.len()
            invariant
                i <= arrows.arrows.len(),
                forall|k: int| 0 <= k < i ==> (#[trigger] arrows@[k]).side(lr.flip()) != self.id,
            decreases arrows.arrows.len() - i,
        {
            if arrows.arrows[i].trace_to(lr.not()) == self.id {
                return false;
            }
            i += 1;
        }
        true
    }

    /// Every path from this node towards `lr` that ends where no arrow leads
    /// on, those through a node's last successor first; no path at all where a
    /// cycle can be reached from this node.
    pub fn paths_to(&self, lr: LR, arrows: &Arrows) -> (paths: Vec<Path>)
        ensures
            paths_view(paths@) == paths_from(arrows@, lr, self.id),
    {
        let map = arrows.map_to(lr);
        let mut path: Vec<i64> = Vec::new();
        path.push(self.id);
        assert(path@ =~= seq![self.id]);
        match walk(&map, &mut path, arrows.arrows.len(), Ghost(arrows@), Ghost(lr)) {
            Some(paths) => paths,
            None => {
                let paths: Vec<Path> = Vec::new();
                assert(paths_view(paths@) =~= Seq::<Seq<i64>>::empty());
                paths
            },
        }
    }

    /// The nodes on the paths from this node towards `lr`, in ascending order.
    pub fn nodes_to(&self, lr: LR, arrows: &Arrows) -> (nodes: Vec<i64>)
        ensures
            strictly_sorted(nodes@),
            forall|id: i64| nodes@.contains(id) <==> on_paths(paths_from(arrows@, lr, self.id), id),
    {
        let paths = self.paths_to(lr, arrows);
        let ghost all = paths_from(arrows@, lr, self.id);
        let mut nodes: Vec<i64> = Vec::new();
        let mut i: usize = 0;
        while i < paths.len()
            invariant
                i <= paths.len(),
                paths_view(paths@) == all,
                strictly_sorted(nodes@),
                forall|id: i64|
                    #![trigger nodes@.contains(id)]
                    nodes@.contains(id) <==> on_paths(all.take(i as int), id),
            decreases paths.len() - i,
        {
            let path = &paths[i];
            let mut j: usize = 0;
            let ghost start = nodes@;
            while j < path.len()
                invariant
                    j <= path.len(),
                    strictly_sorted(nodes@),
                    forall|id: i64|
                        #![trigger nodes@.contains(id)]
                        nodes@.contains(id) <==> start.contains(id) || path@.take(j as int).contains(id),
                decreases path.len() - j,
            {
                let ghost before = nodes@;
                insert_sorted(&mut nodes, path[j]);
                proof {
                    let short = path@.take(j as int);
                    let x = path@[j as int];
                    assert(path@.take(j + 1) =~= short.push(x));
                    assert forall|id: i64|
                        nodes@.contains(id) <==> start.contains(id) || short.push(x).contains(id) by {
                        lemma_push_contains(short, x, id);
                        assert(before.contains(id) <==> start.contains(id) || short.contains(id));
                    }
                }
                j += 1;
            }
            proof {
                assert(path@.take(j as int) =~= path@);
                assert(all[i as int] == path@);
                let fewer = all.take(i as int);
                assert(all.take(i + 1) =~= fewer.push(path@));
                assert forall|id: i64| nodes@.contains(id) <==> on_paths(fewer.push(path@), id) by {
                    lemma_on_paths_push(fewer, path@, id);
                    assert(start.contains(id) <==> on_paths(fewer, id));
                }
            }
            i += 1;
        }
        assert(all.take(i as int) =~= all);
        nodes
    }
}

/// Walks on from the end of `path`, which it leaves as it found it.
fn walk(
    map: &HashMap<i64, Vec<i64>>,
    path: &mut Vec<i64>,
    limit: usize,
    Ghost(arrows): Ghost<Seq<Arrow>>,
    Ghost(lr): Ghost<LR>,
) -> (found: Option<Vec<Vec<i64>>>)
    requires
        adjacency(map@, arrows, lr),
        old(path)@.len() > 0,
        limit == arrows.len(),
    ensures
        final(path)@ == old(path)@,
        match walks(arrows, lr, old(path)@) {
            Some(paths) => found is Some && paths_view(found->0@) == paths,
            None => found is None,
        },
    decreases arrows.len() + 1 - old(path)@.len(),
{
    let cursor = path[path.len() - 1];
    let ghost next = successors(arrows, lr, cursor);
    match map.get(&cursor) {
        None => {
            let mut found: Vec<Vec<i64>> = Vec::new();
            found.push(path.clone());
            assert(paths_view(found@) =~= seq![path@]);
            Some(found)
        },
        Some(dests) => {
            assert(dests@ == next);
            if path.len() > limit {
                return None;
            }
            let mut found: Vec<Vec<i64>> = Vec::new();
            let mut k: usize = dests.len();
            assert(paths_view(found@) =~= Seq::<Seq<i64>>::empty());
            while k > 0
                invariant
                    adjacency(map@, arrows, lr),
                    limit == arrows.len(),
                    path@ == old(path)@,
                    0 < path@.len() <= limit,
                    dests@ == next,
                    k <= dests.len(),
                    walks(arrows, lr, old(path)@) == branches(arrows, lr, path@, next, next.len() as int),
                    branches(arrows, lr, path@, next, next.len() as int) == join(
                        Some(paths_view(found@)),
                        branches(arrows, lr, path@, next, k as int),
                    ),
                decreases k,
            {
                let dest = dests[k - 1];
                if contains_id(path, dest) {
                    return None;
                }
                path.push(dest);
                let sub = walk(map, path, limit, Ghost(arrows), Ghost(lr));
                path.pop();
                assert(path@ =~= old(path)@);
                match sub {
                    None => {
                        return None;
                    },
                    Some(mut first) => {
                        proof {
                            lemma_paths_view_add(found@, first@);
                            let rest = branches(arrows, lr, path@, next, k - 1);
                            if rest is Some {
                                assert((paths_view(found@) + paths_view(first@)) + rest->0 =~= paths_view(
                                    found@,
                                ) + (paths_view(first@) + rest->0));
                            }
                        }
                        found.append(&mut first);
                    },
                }
                k -= 1;
            }
            assert(paths_view(found@) + Seq::<Seq<i64>>::empty() =~= paths_view(found@));
            Some(found)
        },
    }
}

} // verus!
