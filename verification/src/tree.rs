//! The tree of nodes: parent links, accumulated costs, and the queries and
//! updates that keep every node connected to the root.

use crate::geometry::{
    dist, dist_sq, lemma_dist_bounded, lemma_dist_symmetric, lemma_isqrt_monotone, Point, MAX_EDGE,
};
use vstd::prelude::*;

verus! {

/// A node of the tree: where it lies, the node it hangs from, and the length
/// in sub-units of the route that it recorded back to the root.
#[derive(Clone, Copy, Debug, PartialEq, Eq)]
pub struct Node {
    pub point: Point,
    pub parent: Option<usize>,
    pub cost: u128,
}

impl Node {
    /// A node with these fields.
    pub fn new(point: Point, parent: Option<usize>, cost: u128) -> (node: Node)
        ensures
            node == (Node { point, parent, cost }),
    {
        Node { point, parent, cost }
    }
}

/// The node reached from `i` by following parent links `k` times, or the
/// node without a parent at which that walk ends sooner.
pub open spec fn ancestor(nodes: Seq<Node>, i: int, k: nat) -> int
    decreases k,
{
    if k == 0 {
        i
    } else {
        match nodes[i].parent {
            Some(p) => ancestor(nodes, p as int, (k - 1) as nat),
            None => i,
        }
    }
}

/// Node `i` is connected to the root: following its parent links arrives at
/// node 0.
pub open spec fn connected(nodes: Seq<Node>, i: int) -> bool {
    exists|k: nat| ancestor(nodes, i, k) == 0
}

/// Node 0 is the only node without a parent, and every parent link points
/// into the tree.
pub open spec fn links_valid(nodes: Seq<Node>) -> bool {
    &&& 1 <= nodes.len() <= usize::MAX
    &&& nodes[0].parent is None
    &&& forall|i: int|
        1 <= i < nodes.len() ==> (#[trigger] nodes[i]).parent is Some
            && nodes[i].parent.unwrap() < nodes.len()
}

/// The root costs nothing, and no node is cheaper than its parent's cost
/// plus the length of the edge between them.
pub open spec fn costs_valid(nodes: Seq<Node>) -> bool {
    &&& nodes[0].cost == 0
    &&& forall|i: int|
        1 <= i < nodes.len() ==> (#[trigger] nodes[i]).cost >= nodes[nodes[i].parent.unwrap() as int].cost
            + dist(nodes[i].point, nodes[nodes[i].parent.unwrap() as int].point)
    &&& forall|i: int|
        0 <= i < nodes.len() ==> (#[trigger] nodes[i]).cost <= nodes.len() * MAX_EDGE
}

/// Every node is connected to the root.
pub open spec fn rooted(nodes: Seq<Node>) -> bool {
    forall|i: int| 0 <= i < nodes.len() ==> #[trigger] connected(nodes, i)
}

/// The invariant of a tree.
pub open spec fn well_formed(nodes: Seq<Node>) -> bool {
    &&& links_valid(nodes)
    &&& costs_valid(nodes)
    &&& rooted(nodes)
}

/// Every node's cost is exactly its parent's cost plus the length of the
/// edge between them.
pub open spec fn costs_exact(nodes: Seq<Node>) -> bool {
    forall|i: int|
        1 <= i < nodes.len() ==> (#[trigger] nodes[i]).cost == nodes[nodes[i].parent.unwrap() as int].cost
            + dist(nodes[i].point, nodes[nodes[i].parent.unwrap() as int].point)
}

/// The node that `add_node` appends below `parent`.
pub open spec fn child_of(nodes: Seq<Node>, point: Point, parent: int) -> Node {
    Node {
        point,
        parent: Some(parent as usize),
        cost: (nodes[parent].cost + dist(point, nodes[parent].point)) as u128,
    }
}

/// Appending a node changes no walk that begins at an older node.
pub proof fn lemma_ancestor_after_push(nodes: Seq<Node>, node: Node, i: int, k: nat)
    requires
        links_valid(nodes),
        0 <= i < nodes.len(),
    ensures
        ancestor(nodes.push(node), i, k) == ancestor(nodes, i, k),
    decreases k,
{
    if k > 0 && i != 0 {
        lemma_ancestor_after_push(nodes, node, nodes[i].parent.unwrap() as int, (k - 1) as nat);
    }
}

/// The cost of a new child stays within the bound that the tree keeps on
/// every cost.
pub proof fn lemma_child_cost_bounded(nodes: Seq<Node>, point: Point, parent: int)
    requires
        well_formed(nodes),
        0 <= parent < nodes.len(),
    ensures
        nodes[parent].cost + dist(point, nodes[parent].point) <= (nodes.len() + 1) * MAX_EDGE,
        (nodes.len() + 1) * MAX_EDGE <= u128::MAX,
{
    lemma_dist_bounded(point, nodes[parent].point);
    assert(nodes[parent].cost <= nodes.len() * MAX_EDGE);
    assert((nodes.len() + 1) * MAX_EDGE == nodes.len() * MAX_EDGE + MAX_EDGE) by (nonlinear_arith);
    assert((nodes.len() + 1) * MAX_EDGE <= u128::MAX) by (nonlinear_arith)
        requires
            nodes.len() <= 0xFFFF_FFFF_FFFF_FFFF,
            MAX_EDGE == 0x2_0000_0000,
    ;
}

/// Appending a child of an existing node keeps the tree well formed.
pub proof fn lemma_push_well_formed(nodes: Seq<Node>, point: Point, parent: int)
    requires
        well_formed(nodes),
        0 <= parent < nodes.len(),
        nodes.len() < usize::MAX,
    ensures
        well_formed(nodes.push(child_of(nodes, point, parent))),
{
    let node = child_of(nodes, point, parent);
    let grown = nodes.push(node);
    lemma_child_cost_bounded(nodes, point, parent);
    assert forall|i: int| 0 <= i < grown.len() implies #[trigger] connected(grown, i) by {
        if i < nodes.len() {
            assert(connected(nodes, i));
            let k = choose|k: nat| ancestor(nodes, i, k) == 0;
            lemma_ancestor_after_push(nodes, node, i, k);
        } else {
            assert(connected(nodes, parent));
            let k = choose|k: nat| ancestor(nodes, parent, k) == 0;
            lemma_ancestor_after_push(nodes, node, parent, k);
            assert(ancestor(grown, i, k + 1) == ancestor(grown, parent, k));
        }
    }
    assert forall|i: int| 1 <= i < grown.len() implies (#[trigger] grown[i]).cost
        >= grown[grown[i].parent.unwrap() as int].cost + dist(
        grown[i].point,
        grown[grown[i].parent.unwrap() as int].point,
    ) by {
        if i < nodes.len() {
            assert(grown[i] == nodes[i]);
        }
    }
    assert forall|i: int| 0 <= i < grown.len() implies (#[trigger] grown[i]).cost <= grown.len()
        * MAX_EDGE by {
        if i < nodes.len() {
            assert(grown[i] == nodes[i]);
        }
    }
}

/// Node `best` is the nearest to `target`: no node is nearer in Euclidean
/// distance, and every node before it is strictly farther.
pub open spec fn is_nearest(nodes: Seq<Node>, target: Point, best: int) -> bool {
    &&& 0 <= best < nodes.len()
    &&& forall|j: int|
        0 <= j < nodes.len() ==> dist_sq(nodes[best].point, target) <= dist_sq(
            (#[trigger] nodes[j]).point,
            target,
        )
    &&& forall|j: int|
        0 <= j < best ==> dist_sq(nodes[best].point, target) < dist_sq(
            (#[trigger] nodes[j]).point,
            target,
        )
}

/// The index of the node nearest to `target`; among equally near nodes, the
/// oldest.
pub open spec fn nearest(nodes: Seq<Node>, target: Point) -> int {
    choose|best: int| is_nearest(nodes, target, best)
}

/// Only one node is the nearest.
pub proof fn lemma_nearest_unique(nodes: Seq<Node>, target: Point, a: int, b: int)
    requires
        is_nearest(nodes, target, a),
        is_nearest(nodes, target, b),
    ensures
        a == b,
{
    if a < b {
        assert(dist_sq(nodes[b].point, target) < dist_sq(nodes[a].point, target));
    } else if b < a {
        assert(dist_sq(nodes[a].point, target) < dist_sq(nodes[b].point, target));
    }
}

/// The nearest node is also at the least distance as `dist` rounds it.
pub proof fn lemma_nearest_least_distance(nodes: Seq<Node>, target: Point, best: int, j: int)
    requires
        is_nearest(nodes, target, best),
        0 <= j < nodes.len(),
    ensures
        dist(nodes[best].point, target) <= dist(nodes[j].point, target),
{
    assert(dist_sq(nodes[best].point, target) <= dist_sq(nodes[j].point, target));
    lemma_isqrt_monotone(dist_sq(nodes[best].point, target), dist_sq(nodes[j].point, target));
}

/// Finds the node nearest to `point`, or reports that there is no node at
/// all. Among equally near nodes the first wins.
pub fn nearest_node(nodes: &Vec<Node>, point: &Point) -> (found: Option<usize>)
    ensures
        found is None <==> nodes@.len() == 0,
        found matches Some(best) ==> is_nearest(nodes@, *point, best as int) && best == nearest(
            nodes@,
            *point,
        ),
{
    if nodes.len() == 0 {
        return None;
    }
    let mut best: usize = 0;
    let mut best_sq: u128 = nodes[0].point.distance_squared(point);
    let mut i: usize = 1;
    while i < nodes.len()
        invariant
            1 <= i <= nodes@.len(),
            best < i,
            best_sq == dist_sq(nodes@[best as int].point, *point),
            forall|j: int|
                0 <= j < i ==> best_sq <= dist_sq((#[trigger] nodes@[j]).point, *point),
            forall|j: int|
                0 <= j < best ==> best_sq < dist_sq((#[trigger] nodes@[j]).point, *point),
        decreases nodes@.len() - i,
    {
        let d: u128 = nodes[i].point.distance_squared(point);
        if d < best_sq {
            best = i;
            best_sq = d;
        }
        i += 1;
    }
    proof {
        assert(is_nearest(nodes@, *point, best as int));
        lemma_nearest_unique(nodes@, *point, best as int, nearest(nodes@, *point));
    }
    Some(best)
}

/// Node `i` is another node than `index` and lies strictly within `radius`
/// of it.
pub open spec fn is_neighbour(nodes: Seq<Node>, index: int, radius: nat, i: int) -> bool {
    &&& 0 <= i < nodes.len()
    &&& i != index
    &&& dist(nodes[i].point, nodes[index].point) < radius
}

/// `found` lists, in ascending order, exactly the neighbours of `index`
/// among the first `upto` nodes.
pub open spec fn lists_neighbours(
    nodes: Seq<Node>,
    index: int,
    radius: nat,
    upto: int,
    found: Seq<usize>,
) -> bool {
    &&& forall|a: int, b: int| 0 <= a < b < found.len() ==> found[a] < found[b]
    &&& forall|a: int|
        0 <= a < found.len() ==> (#[trigger] found[a]) < upto && is_neighbour(
            nodes,
            index,
            radius,
            found[a] as int,
        )
    &&& forall|i: int|
        0 <= i < upto && #[trigger] is_neighbour(nodes, index, radius, i) ==> exists|a: int|
            0 <= a < found.len() && found[a] == i
}

/// `found` lists, in ascending order, exactly the neighbours of `index`.
pub open spec fn is_neighbourhood(nodes: Seq<Node>, index: int, radius: nat, found: Seq<usize>) -> bool {
    lists_neighbours(nodes, index, radius, nodes.len() as int, found)
}

/// No node lies strictly within distance zero of another, so a
/// neighbourhood of radius zero is empty even where points coincide.
pub proof fn lemma_neighbourhood_of_radius_zero(nodes: Seq<Node>, index: int, found: Seq<usize>)
    requires
        is_neighbourhood(nodes, index, 0, found),
    ensures
        found.len() == 0,
{
    if found.len() > 0 {
        assert(is_neighbour(nodes, index, 0, found[0] as int));
    }
}

/// Rewiring around `hub` moves node `i` below `hub`: it is a neighbour of
/// `hub` and the route through `hub` is strictly cheaper than its own.
pub open spec fn improves(nodes: Seq<Node>, hub: int, radius: nat, i: int) -> bool {
    &&& is_neighbour(nodes, hub, radius, i)
    &&& nodes[hub].cost + dist(nodes[hub].point, nodes[i].point) < nodes[i].cost
}

/// Node `i` after rewiring around `hub`.
pub open spec fn rewired_node(nodes: Seq<Node>, hub: int, radius: nat, i: int) -> Node {
    if improves(nodes, hub, radius, i) {
        Node {
            point: nodes[i].point,
            parent: Some(hub as usize),
            cost: (nodes[hub].cost + dist(nodes[hub].point, nodes[i].point)) as u128,
        }
    } else {
        nodes[i]
    }
}

/// The tree after rewiring around `hub`: every neighbour that `hub` offers
/// a strictly cheaper route hangs from `hub` at that cost, and no other
/// node changes. The costs of the nodes below a moved node stay as they
/// were.
pub open spec fn rewired(nodes: Seq<Node>, hub: int, radius: nat) -> Seq<Node> {
    Seq::new(nodes.len(), |i: int| rewired_node(nodes, hub, radius, i))
}

/// Rewiring around `hub` changes no walk that begins at a node which costs
/// no more than `hub`: only dearer nodes are moved.
pub proof fn lemma_rewired_keeps_cheap_walks(
    nodes: Seq<Node>,
    hub: int,
    radius: nat,
    i: int,
    k: nat,
)
    requires
        links_valid(nodes),
        costs_valid(nodes),
        0 <= hub < nodes.len(),
        0 <= i < nodes.len(),
        nodes[i].cost <= nodes[hub].cost,
    ensures
        ancestor(rewired(nodes, hub, radius), i, k) == ancestor(nodes, i, k),
    decreases k,
{
    if k > 0 && i != 0 {
        let p = nodes[i].parent.unwrap() as int;
        assert(nodes[i].cost >= nodes[p].cost + dist(nodes[i].point, nodes[p].point));
        lemma_rewired_keeps_cheap_walks(nodes, hub, radius, p, (k - 1) as nat);
    }
}

/// A node that was connected to the root is still connected after rewiring
/// around `hub`.
pub proof fn lemma_rewired_connected(nodes: Seq<Node>, hub: int, radius: nat, i: int, k: nat)
    requires
        well_formed(nodes),
        0 <= hub < nodes.len(),
        0 <= i < nodes.len(),
        ancestor(nodes, i, k) == 0,
    ensures
        connected(rewired(nodes, hub, radius), i),
    decreases k,
{
    let after = rewired(nodes, hub, radius);
    if improves(nodes, hub, radius, i) {
        assert(connected(nodes, hub));
        let h = choose|h: nat| ancestor(nodes, hub, h) == 0;
        lemma_rewired_keeps_cheap_walks(nodes, hub, radius, hub, h);
        assert(ancestor(after, i, h + 1) == ancestor(after, hub, h));
    } else if i == 0 {
        assert(ancestor(after, 0, 0) == 0);
    } else {
        let p = nodes[i].parent.unwrap() as int;
        lemma_rewired_connected(nodes, hub, radius, p, (k - 1) as nat);
        let j = choose|j: nat| ancestor(after, p, j) == 0;
        assert(ancestor(after, i, j + 1) == ancestor(after, p, j));
    }
}

/// Rewiring keeps the tree well formed.
pub proof fn lemma_rewired_well_formed(nodes: Seq<Node>, hub: int, radius: nat)
    requires
        well_formed(nodes),
        0 <= hub < nodes.len(),
    ensures
        well_formed(rewired(nodes, hub, radius)),
{
    let after = rewired(nodes, hub, radius);
    assert(after[hub] == nodes[hub]);
    assert(after[0] == nodes[0]);
    assert forall|i: int| 1 <= i < after.len() implies (#[trigger] after[i]).parent is Some
        && after[i].parent.unwrap() < after.len() by {
        assert(nodes[i].parent is Some);
    }
    assert forall|i: int| 1 <= i < after.len() implies (#[trigger] after[i]).cost
        >= after[after[i].parent.unwrap() as int].cost + dist(
        after[i].point,
        after[after[i].parent.unwrap() as int].point,
    ) by {
        if improves(nodes, hub, radius, i) {
            lemma_dist_symmetric(nodes[hub].point, nodes[i].point);
        } else {
            let p = nodes[i].parent.unwrap() as int;
            assert(nodes[i].cost >= nodes[p].cost + dist(nodes[i].point, nodes[p].point));
            assert(after[p].cost <= nodes[p].cost);
            assert(after[p].point == nodes[p].point);
        }
    }
    assert forall|i: int| 0 <= i < after.len() implies (#[trigger] after[i]).cost <= after.len()
        * MAX_EDGE by {
        assert(nodes[i].cost <= nodes.len() * MAX_EDGE);
    }
    assert forall|i: int| 0 <= i < after.len() implies #[trigger] connected(after, i) by {
        assert(connected(nodes, i));
        let k = choose|k: nat| ancestor(nodes, i, k) == 0;
        lemma_rewired_connected(nodes, hub, radius, i, k);
    }
}

/// The points met on the walk from node `i` along at most `k` parent
/// links, in the order from the far end of the walk to `i`.
pub open spec fn path_within(nodes: Seq<Node>, i: int, k: nat) -> Seq<Point>
    decreases k,
{
    if k == 0 {
        seq![nodes[i].point]
    } else {
        match nodes[i].parent {
            Some(p) => path_within(nodes, p as int, (k - 1) as nat).push(nodes[i].point),
            None => seq![nodes[i].point],
        }
    }
}

/// A number of parent links that lead from node `i` to the root.
pub open spec fn depth(nodes: Seq<Node>, i: int) -> nat {
    choose|k: nat| ancestor(nodes, i, k) == 0
}

/// The points on the way from the root to node `i`, the root's first.
pub open spec fn root_path(nodes: Seq<Node>, i: int) -> Seq<Point> {
    path_within(nodes, i, depth(nodes, i))
}

/// Any two walks from a node that arrive at the root meet the same points.
pub proof fn lemma_path_same_for_any_depth(nodes: Seq<Node>, i: int, j: nat, k: nat)
    requires
        links_valid(nodes),
        0 <= i < nodes.len(),
        ancestor(nodes, i, j) == 0,
        ancestor(nodes, i, k) == 0,
    ensures
        path_within(nodes, i, j) == path_within(nodes, i, k),
    decreases j,
{
    if i != 0 {
        let p = nodes[i].parent.unwrap() as int;
        lemma_path_same_for_any_depth(nodes, p, (j - 1) as nat, (k - 1) as nat);
    }
}

/// A walk that arrives at the root begins, read from the root, with the
/// root's point and ends with the point of the node it started from.
pub proof fn lemma_path_ends(nodes: Seq<Node>, i: int, k: nat)
    requires
        links_valid(nodes),
        0 <= i < nodes.len(),
        ancestor(nodes, i, k) == 0,
    ensures
        path_within(nodes, i, k).len() >= 1,
        path_within(nodes, i, k)[0] == nodes[0].point,
        path_within(nodes, i, k).last() == nodes[i].point,
    decreases k,
{
    if i != 0 {
        let p = nodes[i].parent.unwrap() as int;
        lemma_path_ends(nodes, p, (k - 1) as nat);
    }
}

/// The way from the root to the root is the root's point alone; the way to
/// any other node is the way to its parent and then the node's own point.
pub proof fn lemma_root_path_unfold(nodes: Seq<Node>, i: int)
    requires
        well_formed(nodes),
        0 <= i < nodes.len(),
    ensures
        i == 0 ==> root_path(nodes, i) == seq![nodes[0].point],
        i != 0 ==> root_path(nodes, i) == root_path(nodes, nodes[i].parent.unwrap() as int).push(
            nodes[i].point,
        ),
{
    assert(connected(nodes, i));
    if i != 0 {
        let p = nodes[i].parent.unwrap() as int;
        assert(nodes[i].parent is Some && p < nodes.len());
        assert(connected(nodes, p));
        let k = depth(nodes, i);
        assert(ancestor(nodes, p, (k - 1) as nat) == 0);
        lemma_path_same_for_any_depth(nodes, p, (k - 1) as nat, depth(nodes, p));
    }
}

/// In a well-formed tree the way from the root to a node begins with the
/// root's point and ends with the node's own.
pub proof fn lemma_root_path_ends(nodes: Seq<Node>, i: int)
    requires
        well_formed(nodes),
        0 <= i < nodes.len(),
    ensures
        root_path(nodes, i).len() >= 1,
        root_path(nodes, i)[0] == nodes[0].point,
        root_path(nodes, i).last() == nodes[i].point,
{
    assert(connected(nodes, i));
    lemma_path_ends(nodes, i, depth(nodes, i));
}

/// The way from the root to some node has `r` points.
pub open spec fn some_way_has(nodes: Seq<Node>, r: int) -> bool {
    exists|j: int| 0 <= j < nodes.len() && (#[trigger] root_path(nodes, j)).len() == r
}

/// Every length from one to that of the way to node `i` is the length of
/// the way to some node: the nodes on the way themselves.
proof fn lemma_shorter_ways_exist(nodes: Seq<Node>, i: int)
    requires
        well_formed(nodes),
        0 <= i < nodes.len(),
    ensures
        forall|r: int| 1 <= r <= root_path(nodes, i).len() ==> #[trigger] some_way_has(nodes, r),
    decreases root_path(nodes, i).len(),
{
    lemma_root_path_unfold(nodes, i);
    if i != 0 {
        let p = nodes[i].parent.unwrap() as int;
        assert(nodes[i].parent is Some && p < nodes.len());
        lemma_shorter_ways_exist(nodes, p);
    }
    assert forall|r: int| 1 <= r <= root_path(nodes, i).len() implies #[trigger] some_way_has(
        nodes,
        r,
    ) by {
        if r == root_path(nodes, i).len() {
            assert(0 <= i < nodes.len() && root_path(nodes, i).len() == r);
        }
    }
}

/// The way from the root to a node visits no node twice, so it has at most
/// as many points as the tree has nodes.
pub proof fn lemma_root_path_within_tree(nodes: Seq<Node>, i: int)
    requires
        well_formed(nodes),
        0 <= i < nodes.len(),
    ensures
        root_path(nodes, i).len() <= nodes.len(),
{
    let count = nodes.len() as int;
    let longest = root_path(nodes, i).len() as int;
    let indices = vstd::set_lib::set_int_range(0, count);
    let length = |j: int| root_path(nodes, j).len() as int;
    let lengths = indices.map(length);
    let wanted = vstd::set_lib::set_int_range(1, longest + 1);
    vstd::set_lib::lemma_int_range(0, count);
    vstd::set_lib::lemma_int_range(1, longest + 1);
    vstd::set_lib::lemma_map_size_bound(indices, lengths, length);
    lemma_shorter_ways_exist(nodes, i);
    assert forall|r: int| wanted.contains(r) implies lengths.contains(r) by {
        assert(some_way_has(nodes, r));
        let j = choose|j: int| 0 <= j < nodes.len() && (#[trigger] root_path(nodes, j)).len() == r;
        assert(indices.contains(j) && length(j) == r);
    }
    vstd::set_lib::lemma_len_subset(wanted, lengths);
}

/// Every node whose parent is moved by rewiring around `hub` is moved
/// itself.
pub open spec fn moves_whole_families(nodes: Seq<Node>, hub: int, radius: nat) -> bool {
    forall|i: int|
        1 <= i < nodes.len() && improves(nodes, hub, radius, (#[trigger] nodes[i]).parent.unwrap() as int)
            ==> improves(nodes, hub, radius, i)
}

/// Where every cost is exact, it still is after a node has been appended.
pub proof fn lemma_push_keeps_costs_exact(nodes: Seq<Node>, point: Point, parent: int)
    requires
        well_formed(nodes),
        costs_exact(nodes),
        0 <= parent < nodes.len(),
    ensures
        costs_exact(nodes.push(child_of(nodes, point, parent))),
{
    let grown = nodes.push(child_of(nodes, point, parent));
    lemma_child_cost_bounded(nodes, point, parent);
    assert forall|i: int| 1 <= i < grown.len() implies (#[trigger] grown[i]).cost
        == grown[grown[i].parent.unwrap() as int].cost + dist(
        grown[i].point,
        grown[grown[i].parent.unwrap() as int].point,
    ) by {
        if i < nodes.len() {
            assert(grown[i] == nodes[i]);
            assert(grown[nodes[i].parent.unwrap() as int] == nodes[nodes[i].parent.unwrap() as int]);
        } else {
            assert(grown[parent] == nodes[parent]);
        }
    }
}

/// Where every cost is exact, the costs after rewiring are exact if and
/// only if no moved node leaves a child behind: the cost of a child that
/// stays below a moved node still counts the route that its parent gave up.
pub proof fn lemma_rewired_costs_exact(nodes: Seq<Node>, hub: int, radius: nat)
    requires
        well_formed(nodes),
        costs_exact(nodes),
        0 <= hub < nodes.len(),
    ensures
        costs_exact(rewired(nodes, hub, radius)) <==> moves_whole_families(nodes, hub, radius),
{
    let after = rewired(nodes, hub, radius);
    assert(after[hub] == nodes[hub]);
    if moves_whole_families(nodes, hub, radius) {
        assert forall|i: int| 1 <= i < after.len() implies (#[trigger] after[i]).cost
            == after[after[i].parent.unwrap() as int].cost + dist(
            after[i].point,
            after[after[i].parent.unwrap() as int].point,
        ) by {
            if improves(nodes, hub, radius, i) {
                lemma_dist_symmetric(nodes[hub].point, nodes[i].point);
            } else {
                let p = nodes[i].parent.unwrap() as int;
                assert(nodes[i].parent is Some && p < nodes.len());
                assert(!improves(nodes, hub, radius, p));
                assert(after[p] == nodes[p]);
                assert(nodes[i].cost == nodes[p].cost + dist(nodes[i].point, nodes[p].point));
            }
        }
    }
    if costs_exact(after) {
        assert forall|i: int|
            1 <= i < nodes.len() && improves(
                nodes,
                hub,
                radius,
                (#[trigger] nodes[i]).parent.unwrap() as int,
            ) implies improves(nodes, hub, radius, i) by {
            if !improves(nodes, hub, radius, i) {
                let p = nodes[i].parent.unwrap() as int;
                assert(nodes[i].parent is Some && p < nodes.len());
                assert(nodes[i].cost == nodes[p].cost + dist(nodes[i].point, nodes[p].point));
                assert(after[i] == nodes[i]);
                assert(after[p].cost < nodes[p].cost);
                assert(after[p].point == nodes[p].point);
                assert(after[i].cost == after[after[i].parent.unwrap() as int].cost + dist(
                    after[i].point,
                    after[after[i].parent.unwrap() as int].point,
                ));
            }
        }
    }
}

/// An append-only tree of nodes. Node 0 is the root; every other node hangs
/// from an older or newer node and is connected to the root.
pub struct Tree {
    nodes: Vec<Node>,
}

impl View for Tree {
    type V = Seq<Node>;

    closed spec fn view(&self) -> Seq<Node> {
        self.nodes@
    }
}

impl Tree {
    /// The invariant of the tree.
    pub open spec fn wf(&self) -> bool {
        well_formed(self@)
    }

    /// A tree that holds only its root.
    pub fn new(root: Point) -> (tree: Tree)
        ensures
            tree@ == seq![Node { point: root, parent: None, cost: 0 }],
            tree.wf(),
    {
        let mut nodes: Vec<Node> = Vec::new();
        nodes.push(Node::new(root, None, 0));
        let tree = Tree { nodes };
        proof {
            assert(tree@ =~= seq![Node { point: root, parent: None, cost: 0 }]);
            assert(ancestor(tree@, 0, 0) == 0);
            assert(connected(tree@, 0));
        }
        tree
    }

    /// The number of nodes.
    pub fn len(&self) -> (n: usize)
        ensures
            n == self@.len(),
    {
        self.nodes.len()
    }

    /// The nodes in the order in which they were added.
    pub fn nodes(&self) -> (nodes: &Vec<Node>)
        ensures
            nodes@ == self@,
    {
        &self.nodes
    }

    /// Node `index`.
    pub fn node(&self, index: usize) -> (node: Node)
        requires
            index < self@.len(),
        ensures
            node == self@[index as int],
    {
        self.nodes[index]
    }

    /// Appends a node at `point` below `parent_index` and returns its index.
    /// Its cost is the parent's cost plus the length of the new edge.
    pub fn add_node(&mut self, point: Point, parent_index: usize) -> (index: usize)
        requires
            old(self).wf(),
            parent_index < old(self)@.len(),
        ensures
            final(self)@ == old(self)@.push(child_of(old(self)@, point, parent_index as int)),
            index == old(self)@.len(),
            final(self).wf(),
    {
        let parent = self.nodes[parent_index];
        proof {
            lemma_child_cost_bounded(self@, point, parent_index as int);
        }
        let cost: u128 = parent.cost + point.distance(&parent.point) as u128;
        self.nodes.push(Node::new(point, Some(parent_index), cost));
        let count = self.nodes.len();
        proof {
            lemma_push_well_formed(old(self)@, point, parent_index as int);
        }
        count - 1
    }

    /// The index of the node nearest to `point`; among equally near nodes,
    /// the oldest.
    pub fn find_nearest(&self, point: &Point) -> (best: usize)
        requires
            self.wf(),
        ensures
            is_nearest(self@, *point, best as int),
            best == nearest(self@, *point),
    {
        // A well-formed tree has its root, so there is a nearest node.
        match nearest_node(&self.nodes, point) {
            Some(best) => best,
            None => 0,
        }
    }

    /// The indices, in ascending order, of the other nodes that lie strictly
    /// within `radius` of node `index`.
    pub fn near(&self, index: usize, radius: u64) -> (found: Vec<usize>)
        requires
            index < self@.len(),
        ensures
            is_neighbourhood(self@, index as int, radius as nat, found@),
            radius == 0 ==> found@.len() == 0,
    {
        let centre = self.nodes[index].point;
        let mut found: Vec<usize> = Vec::new();
        let mut i: usize = 0;
        while i < self.nodes.len()
            invariant
                i <= self.nodes@.len(),
                index < self.nodes@.len(),
                centre == self.nodes@[index as int].point,
                lists_neighbours(self.nodes@, index as int, radius as nat, i as int, found@),
            decreases self.nodes@.len() - i,
        {
            let ghost before = found@;
            if i != index && self.nodes[i].point.distance(&centre) < radius {
                found.push(i);
                proof {
                    assert(forall|a: int| 0 <= a < before.len() ==> found@[a] == before[a]);
                    assert(found@[before.len() as int] == i);
                    assert forall|j: int|
                        0 <= j < i + 1 && #[trigger] is_neighbour(
                            self.nodes@,
                            index as int,
                            radius as nat,
                            j,
                        ) implies exists|a: int| 0 <= a < found@.len() && found@[a] == j by {
                        if j < i {
                            let a = choose|a: int| 0 <= a < before.len() && before[a] == j;
                            assert(found@[a] == j);
                        } else {
                            assert(found@[before.len() as int] == j);
                        }
                    }
                }
            }
            i += 1;
        }
        proof {
            if radius == 0 {
                lemma_neighbourhood_of_radius_zero(self@, index as int, found@);
            }
        }
        found
    }

    /// Rewires the tree around node `hub`: each neighbour within `radius`
    /// to which `hub` offers a strictly cheaper route is moved below `hub`
    /// and takes the cost of that route. The costs of the nodes below a
    /// moved node are left as they were.
    pub fn rewire(&mut self, hub: usize, radius: u64)
        requires
            old(self).wf(),
            hub < old(self)@.len(),
        ensures
            final(self)@ == rewired(old(self)@, hub as int, radius as nat),
            final(self).wf(),
    {
        let neighbours = self.near(hub, radius);
        let centre = self.nodes[hub];
        let ghost before = self@;
        proof {
            assert(before[hub as int].cost <= before.len() * MAX_EDGE);
            assert(before.len() * MAX_EDGE + MAX_EDGE <= u128::MAX) by (nonlinear_arith)
                requires
                    before.len() <= 0xFFFF_FFFF_FFFF_FFFF,
                    MAX_EDGE == 0x2_0000_0000,
            ;
        }
        let mut k: usize = 0;
        while k < neighbours.len()
            invariant
                k <= neighbours@.len(),
                hub < before.len(),
                centre == before[hub as int],
                centre.cost + MAX_EDGE <= u128::MAX,
                is_neighbourhood(before, hub as int, radius as nat, neighbours@),
                self.nodes@.len() == before.len(),
                forall|i: int|
                    0 <= i < before.len() ==> #[trigger] self.nodes@[i] == if exists|a: int|
                        0 <= a < k && neighbours@[a] == i {
                        rewired_node(before, hub as int, radius as nat, i)
                    } else {
                        before[i]
                    },
            decreases neighbours@.len() - k,
        {
            let index = neighbours[k];
            let ghost current = self.nodes@;
            proof {
                assert(is_neighbour(before, hub as int, radius as nat, neighbours@[k as int] as int));
                assert(!(exists|a: int| 0 <= a < k && neighbours@[a] == index)) by {
                    if exists|a: int| 0 <= a < k && neighbours@[a] == index {
                        let a = choose|a: int| 0 <= a < k && neighbours@[a] == index;
                        assert(neighbours@[a] < neighbours@[k as int]);
                    }
                }
                assert(current[index as int] == before[index as int]);
            }
            let neighbour = self.nodes[index];
            let via: u128 = centre.cost + centre.point.distance(&neighbour.point) as u128;
            if via < neighbour.cost {
                self.nodes.set(index, Node::new(neighbour.point, Some(hub), via));
            }
            proof {
                assert(self.nodes@[index as int] == rewired_node(
                    before,
                    hub as int,
                    radius as nat,
                    index as int,
                ));
                assert forall|i: int| 0 <= i < before.len() implies #[trigger] self.nodes@[i]
                    == if exists|a: int| 0 <= a < k + 1 && neighbours@[a] == i {
                    rewired_node(before, hub as int, radius as nat, i)
                } else {
                    before[i]
                } by {
                    if i == index {
                        assert(neighbours@[k as int] == i);
                    } else {
                        assert(self.nodes@[i] == current[i]);
                        if exists|a: int| 0 <= a < k && neighbours@[a] == i {
                            let a = choose|a: int| 0 <= a < k && neighbours@[a] == i;
                            assert(0 <= a < k + 1 && neighbours@[a] == i);
                        } else if exists|a: int| 0 <= a < k + 1 && neighbours@[a] == i {
                            let a = choose|a: int| 0 <= a < k + 1 && neighbours@[a] == i;
                            assert(a == k);
                        }
                    }
                }
            }
            k += 1;
        }
        proof {
            assert forall|i: int| 0 <= i < before.len() implies self.nodes@[i] == rewired_node(
                before,
                hub as int,
                radius as nat,
                i,
            ) by {
                if !(exists|a: int| 0 <= a < k && neighbours@[a] == i) {
                    if is_neighbour(before, hub as int, radius as nat, i) {
                        let a = choose|a: int| 0 <= a < neighbours@.len() && neighbours@[a] == i;
                        assert(0 <= a < k && neighbours@[a] == i);
                    }
                }
            }
            assert(self.nodes@ =~= rewired(before, hub as int, radius as nat));
            lemma_rewired_well_formed(before, hub as int, radius as nat);
        }
    }

    /// The points on the way from the root to node `index`, found by
    /// walking the parent links back from `index`.
    pub fn trace_path_from(&self, index: usize) -> (path: Vec<Point>)
        requires
            self.wf(),
            index < self@.len(),
        ensures
            path@ == root_path(self@, index as int),
            1 <= path@.len() <= self@.len(),
            path@[0] == self@[0].point,
            path@.last() == self@[index as int].point,
    {
        let ghost whole = root_path(self@, index as int);
        let ghost mut fuel: nat = depth(self@, index as int);
        let mut backwards: Vec<Point> = Vec::new();
        let mut current: usize = index;
        proof {
            assert(connected(self@, index as int));
            assert(whole =~= path_within(self@, current as int, fuel) + backwards@.reverse());
        }
        loop
            invariant_except_break
                current < self@.len(),
                ancestor(self@, current as int, fuel) == 0,
                whole == path_within(self@, current as int, fuel) + backwards@.reverse(),
            invariant
                self.wf(),
            ensures
                whole == backwards@.reverse(),
            decreases fuel,
        {
            let node = self.nodes[current];
            let ghost earlier = backwards@;
            backwards.push(node.point);
            proof {
                assert(backwards@.reverse() =~= seq![node.point] + earlier.reverse());
            }
            match node.parent {
                Some(parent_index) => {
                    proof {
                        assert(current != 0);
                        assert(self@[current as int].parent.unwrap() < self@.len());
                        assert(whole =~= path_within(self@, parent_index as int, (fuel - 1) as nat)
                            + backwards@.reverse());
                        fuel = (fuel - 1) as nat;
                    }
                    current = parent_index;
                },
                None => {
                    proof {
                        assert(whole =~= backwards@.reverse());
                    }
                    break ;
                },
            }
        }
        let mut path: Vec<Point> = Vec::new();
        let mut taken: usize = 0;
        let count = backwards.len();
        while taken < count
            invariant
                count == backwards@.len(),
                taken <= count,
                path@.len() == taken,
                forall|a: int| 0 <= a < taken ==> path@[a] == backwards@[count - 1 - a],
            decreases count - taken,
        {
            path.push(backwards[count - 1 - taken]);
            taken += 1;
        }
        proof {
            assert(path@ =~= backwards@.reverse());
            lemma_root_path_ends(self@, index as int);
            lemma_root_path_within_tree(self@, index as int);
        }
        path
    }

    /// The points on the way from the root to the newest node.
    pub fn trace_path(&self) -> (path: Vec<Point>)
        requires
            self.wf(),
        ensures
            path@ == root_path(self@, self@.len() - 1),
            1 <= path@.len() <= self@.len(),
            path@[0] == self@[0].point,
            path@.last() == self@.last().point,
    {
        self.trace_path_from(self.nodes.len() - 1)
    }
}

} // verus!
