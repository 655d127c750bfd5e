use rrt_star::geometry::{units, Point};
use rrt_star::tree::{nearest_node, Node, Tree};

fn pt(x: i16, y: i16) -> Point {
    Point::from_units(x, y)
}

fn raw(x: i32, y: i32) -> Point {
    Point { x, y }
}

fn cost(n: u16) -> u128 {
    units(n) as u128
}

/// The length of `n` units as a radius.
fn len(n: u16) -> u64 {
    units(n) as u64
}

/// Root at the origin, A at (0, 10) below the root, B at (10, 10) below A,
/// D at (20, 10) below B.
fn chain() -> Tree {
    let mut tree = Tree::new(pt(0, 0));
    assert_eq!(tree.add_node(pt(0, 10), 0), 1);
    assert_eq!(tree.add_node(pt(10, 10), 1), 2);
    assert_eq!(tree.add_node(pt(20, 10), 2), 3);
    tree
}

fn costs_are_exact(tree: &Tree) -> bool {
    let nodes = tree.nodes();
    nodes.iter().all(|n| match n.parent {
        None => n.cost == 0,
        Some(p) => n.cost == nodes[p].cost + n.point.distance(&nodes[p].point) as u128,
    })
}

fn costs_cover_the_edges(tree: &Tree) -> bool {
    let nodes = tree.nodes();
    nodes.iter().all(|n| match n.parent {
        None => n.cost == 0,
        Some(p) => n.cost >= nodes[p].cost + n.point.distance(&nodes[p].point) as u128,
    })
}

#[test]
fn node_new_keeps_its_arguments() {
    let n = Node::new(raw(1, 2), Some(3), 4);
    assert_eq!(n.point, raw(1, 2));
    assert_eq!(n.parent, Some(3));
    assert_eq!(n.cost, 4);
}

#[test]
fn new_tree_holds_only_the_root() {
    let tree = Tree::new(pt(4, -4));
    assert_eq!(tree.len(), 1);
    assert_eq!(tree.node(0), Node { point: pt(4, -4), parent: None, cost: 0 });
    assert_eq!(tree.nodes().len(), 1);
}

#[test]
fn add_node_sums_the_cost_along_the_parent() {
    let tree = chain();
    assert_eq!(tree.len(), 4);
    assert_eq!(tree.node(1), Node { point: pt(0, 10), parent: Some(0), cost: cost(10) });
    assert_eq!(tree.node(2), Node { point: pt(10, 10), parent: Some(1), cost: cost(20) });
    assert_eq!(tree.node(3), Node { point: pt(20, 10), parent: Some(2), cost: cost(30) });
    assert!(costs_are_exact(&tree));
}

#[test]
fn add_node_measures_the_edge_to_a_sub_unit() {
    let mut tree = Tree::new(pt(0, 0));
    let i = tree.add_node(pt(5, 5), 0);
    assert_eq!(tree.node(i).cost, 463_409);
    let j = tree.add_node(pt(5, 5), i);
    assert_eq!(tree.node(j), Node { point: pt(5, 5), parent: Some(i), cost: 463_409 });
    let k = tree.add_node(pt(7, 7), j);
    assert_eq!(tree.node(k).cost, 463_409 + 185_363);
}

#[test]
fn add_node_anywhere_in_the_plane() {
    let mut tree = Tree::new(raw(i32::MIN, i32::MIN));
    let i = tree.add_node(raw(i32::MAX, i32::MAX), 0);
    assert_eq!(
        tree.node(i),
        Node { point: raw(i32::MAX, i32::MAX), parent: Some(0), cost: 6_074_000_998 }
    );
    let j = tree.add_node(raw(i32::MIN, i32::MIN), i);
    assert_eq!(tree.node(j).cost, 2 * 6_074_000_998);
    assert!(costs_are_exact(&tree));
}

#[test]
fn find_nearest_picks_the_closest_node() {
    let tree = chain();
    assert_eq!(tree.find_nearest(&pt(19, 9)), 3);
    assert_eq!(tree.find_nearest(&pt(1, 1)), 0);
    assert_eq!(tree.find_nearest(&pt(9, 12)), 2);
}

#[test]
fn find_nearest_compares_exact_distances() {
    // Both nodes are two whole sub-units from the target, but the second is
    // nearer: 4 + 4 = 8 against 5.
    let mut tree = Tree::new(raw(2, 2));
    tree.add_node(raw(2, 1), 0);
    assert_eq!(tree.find_nearest(&raw(0, 0)), 1);
}

#[test]
fn find_nearest_prefers_the_oldest_of_equally_near_nodes() {
    let mut tree = Tree::new(pt(0, 0));
    tree.add_node(pt(10, 0), 0);
    tree.add_node(pt(-10, 0), 0);
    tree.add_node(pt(0, 20), 0);
    assert_eq!(tree.find_nearest(&pt(0, 10)), 0);
    assert_eq!(tree.find_nearest(&pt(0, -30)), 0);
    assert_eq!(tree.find_nearest(&pt(0, 40)), 3);
    let mut twins = Tree::new(pt(50, 50));
    twins.add_node(pt(3, 0), 0);
    twins.add_node(pt(-3, 0), 0);
    assert_eq!(twins.find_nearest(&pt(0, 0)), 1);
}

#[test]
fn nearest_node_reports_an_empty_list() {
    let none: Vec<Node> = Vec::new();
    assert_eq!(nearest_node(&none, &pt(0, 0)), None);
    let one = vec![Node { point: pt(9, 9), parent: None, cost: 0 }];
    assert_eq!(nearest_node(&one, &pt(0, 0)), Some(0));
}

#[test]
fn near_lists_the_nodes_strictly_within_the_radius() {
    let tree = chain();
    assert_eq!(tree.near(2, len(11)), vec![1, 3]);
    assert_eq!(tree.near(2, len(10) + 1), vec![1, 3]);
    assert_eq!(tree.near(2, len(10)), Vec::<usize>::new());
    assert_eq!(tree.near(2, len(15)), vec![0, 1, 3]);
    assert_eq!(tree.near(0, len(100)), vec![1, 2, 3]);
}

#[test]
fn near_leaves_out_the_node_itself() {
    let tree = chain();
    assert!(!tree.near(1, len(1000)).contains(&1));
    assert_eq!(Tree::new(pt(0, 0)).near(0, len(5)), Vec::<usize>::new());
}

#[test]
fn near_with_radius_zero_is_empty_even_with_duplicates() {
    let mut tree = Tree::new(pt(3, 3));
    tree.add_node(pt(3, 3), 0);
    tree.add_node(pt(3, 3), 1);
    assert_eq!(tree.near(0, 0), Vec::<usize>::new());
    assert_eq!(tree.near(1, 0), Vec::<usize>::new());
    assert_eq!(tree.near(2, 0), Vec::<usize>::new());
    assert_eq!(tree.near(1, 1), vec![0, 2]);
}

#[test]
fn rewire_moves_a_neighbour_to_a_cheaper_parent() {
    let mut tree = chain();
    let hub = tree.add_node(pt(5, 5), 0);
    assert_eq!(tree.node(hub).cost, 463_409);
    tree.rewire(hub, len(8));
    assert_eq!(tree.node(0), Node { point: pt(0, 0), parent: None, cost: 0 });
    assert_eq!(tree.node(1), Node { point: pt(0, 10), parent: Some(0), cost: cost(10) });
    assert_eq!(tree.node(2), Node { point: pt(10, 10), parent: Some(hub), cost: 926_818 });
    assert_eq!(tree.node(hub), Node { point: pt(5, 5), parent: Some(0), cost: 463_409 });
}

#[test]
fn rewire_leaves_the_costs_below_a_moved_node() {
    let mut tree = chain();
    let hub = tree.add_node(pt(5, 5), 0);
    tree.rewire(hub, len(8));
    assert_eq!(tree.node(3), Node { point: pt(20, 10), parent: Some(2), cost: cost(30) });
    assert!(!costs_are_exact(&tree));
    assert!(costs_cover_the_edges(&tree));
}

#[test]
fn rewire_moves_a_whole_family_and_keeps_costs_exact() {
    let mut tree = chain();
    let hub = tree.add_node(pt(5, 5), 0);
    tree.rewire(hub, len(16));
    assert_eq!(tree.node(2), Node { point: pt(10, 10), parent: Some(hub), cost: 926_818 });
    assert_eq!(tree.node(3), Node { point: pt(20, 10), parent: Some(hub), cost: 1_499_624 });
    assert!(costs_are_exact(&tree));
}

#[test]
fn rewire_ignores_nodes_outside_the_radius() {
    let mut tree = chain();
    let hub = tree.add_node(pt(5, 5), 0);
    tree.rewire(hub, len(7));
    assert_eq!(tree.node(2), Node { point: pt(10, 10), parent: Some(1), cost: cost(20) });
}

#[test]
fn rewire_needs_a_strictly_cheaper_route() {
    let mut tree = Tree::new(pt(0, 0));
    tree.add_node(pt(10, 0), 0);
    tree.add_node(pt(20, 0), 1);
    let hub = tree.add_node(pt(10, 0), 0);
    tree.rewire(hub, len(100));
    // Through the new node the third costs 10 + 10, which is what it has.
    assert_eq!(tree.node(2), Node { point: pt(20, 0), parent: Some(1), cost: cost(20) });
    assert_eq!(tree.node(1), Node { point: pt(10, 0), parent: Some(0), cost: cost(10) });
    assert_eq!(tree.node(0).parent, None);
}

#[test]
fn rewire_around_an_older_node() {
    let mut tree = Tree::new(pt(0, 0));
    tree.add_node(pt(0, 30), 0);
    tree.add_node(pt(30, 30), 1);
    tree.add_node(pt(30, 1), 2);
    assert_eq!(tree.node(3).cost, cost(89));
    tree.rewire(0, len(31));
    assert_eq!(tree.node(3), Node { point: pt(30, 1), parent: Some(0), cost: 1_967_171 });
    assert_eq!(tree.node(2), Node { point: pt(30, 30), parent: Some(1), cost: cost(60) });
    assert_eq!(tree.node(1), Node { point: pt(0, 30), parent: Some(0), cost: cost(30) });
    assert_eq!(tree.trace_path(), vec![pt(0, 0), pt(30, 1)]);
}

#[test]
fn trace_path_runs_from_the_root_to_the_newest_node() {
    let tree = chain();
    assert_eq!(tree.trace_path(), vec![pt(0, 0), pt(0, 10), pt(10, 10), pt(20, 10)]);
    assert_eq!(Tree::new(pt(1, 1)).trace_path(), vec![pt(1, 1)]);
}

#[test]
fn trace_path_from_any_node() {
    let mut tree = chain();
    tree.add_node(pt(-5, 0), 0);
    assert_eq!(tree.trace_path_from(0), vec![pt(0, 0)]);
    assert_eq!(tree.trace_path_from(2), vec![pt(0, 0), pt(0, 10), pt(10, 10)]);
    assert_eq!(tree.trace_path_from(4), vec![pt(0, 0), pt(-5, 0)]);
    assert_eq!(tree.trace_path(), vec![pt(0, 0), pt(-5, 0)]);
}

#[test]
fn trace_path_follows_rewired_links() {
    let mut tree = chain();
    let hub = tree.add_node(pt(5, 5), 0);
    tree.rewire(hub, len(8));
    assert_eq!(tree.trace_path_from(3), vec![pt(0, 0), pt(5, 5), pt(10, 10), pt(20, 10)]);
    let path = tree.trace_path_from(2);
    assert_eq!(path.first(), Some(&pt(0, 0)));
    assert_eq!(path.last(), Some(&pt(10, 10)));
}
