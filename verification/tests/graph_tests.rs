use summit_surveyor::decision_tree::{get_decisions, Decision, DecisionCost, DecisionTree, GoToLift};
use summit_surveyor::graph::{dijkstra, GraphLayer, GraphNode, GraphType, GraphWeight, Path};
use summit_surveyor::lift::{AnyLayer, LiftLayer};
use summit_surveyor::terrain::{Grid, TerrainGraphLayer};

fn n(x: usize, y: usize) -> GraphNode {
    GraphNode(x, y)
}

fn total(path: &Path) -> GraphWeight {
    path.cost()
}

#[test]
fn weight_add_and_order() {
    assert_eq!(GraphWeight::Finite(2).add(GraphWeight::Finite(3)), GraphWeight::Finite(5));
    assert_eq!(GraphWeight::Finite(2).add(GraphWeight::Infinity), GraphWeight::Infinity);
    assert_eq!(GraphWeight::Infinity.add(GraphWeight::Finite(2)), GraphWeight::Infinity);
    assert!(GraphWeight::Finite(1).lt(&GraphWeight::Finite(2)));
    assert!(!GraphWeight::Finite(2).lt(&GraphWeight::Finite(2)));
    assert!(GraphWeight::Finite(i32::MAX).lt(&GraphWeight::Infinity));
    assert!(!GraphWeight::Infinity.lt(&GraphWeight::Infinity));
    assert!(GraphWeight::Infinity.le(&GraphWeight::Infinity));
    assert!(GraphWeight::Finite(7).is_finite());
    assert!(!GraphWeight::Infinity.is_finite());
}

#[test]
fn path_operations() {
    let a = Path::new(vec![(n(0, 0), GraphWeight::Finite(1)), (n(1, 0), GraphWeight::Finite(2))]);
    let b = Path::new(vec![(n(2, 0), GraphWeight::Finite(0))]);
    assert_eq!(a.len(), 2);
    assert!(!a.is_empty());
    assert_eq!(a.endpoint(), Some(&n(1, 0)));
    let c = a.append(&b);
    assert_eq!(c.len(), 3);
    assert_eq!(c.endpoint(), Some(&n(2, 0)));
    assert_eq!(c.path[0], (n(0, 0), GraphWeight::Finite(1)));
    assert_eq!(total(&c), GraphWeight::Finite(3));
    let e = Path::empty();
    assert!(e.is_empty());
    assert_eq!(e.endpoint(), None);
    assert_eq!(total(&e), GraphWeight::Finite(0));
    let inf = Path::new(vec![(n(0, 0), GraphWeight::Infinity), (n(0, 1), GraphWeight::Finite(0))]);
    assert_eq!(total(&inf), GraphWeight::Infinity);
}

#[test]
fn terrain_children_in_order() {
    let t = TerrainGraphLayer::new((3, 3));
    assert_eq!(t.get_type(), GraphType::Terrain);
    assert_eq!(
        t.get_children(&n(1, 1)),
        vec![
            (n(0, 1), GraphWeight::Finite(1)),
            (n(1, 0), GraphWeight::Finite(1)),
            (n(2, 1), GraphWeight::Finite(1)),
            (n(1, 2), GraphWeight::Finite(1)),
        ]
    );
    assert_eq!(
        t.get_children(&n(0, 0)),
        vec![(n(1, 0), GraphWeight::Finite(1)), (n(0, 1), GraphWeight::Finite(1))]
    );
    assert_eq!(
        t.get_children(&n(2, 2)),
        vec![(n(1, 2), GraphWeight::Finite(1)), (n(2, 1), GraphWeight::Finite(1))]
    );
    let line = TerrainGraphLayer::new((1, 1));
    assert_eq!(line.get_children(&n(0, 0)), vec![]);
}

#[test]
fn lift_layer_edges() {
    let l = LiftLayer::new(n(0, 0), n(4, 4));
    assert_eq!(l.get_type(), GraphType::Lift { start: n(0, 0), end: n(4, 4) });
    assert_eq!(l.get_children(&n(0, 0)), vec![(n(4, 4), GraphWeight::Finite(1))]);
    assert_eq!(l.get_children(&n(4, 4)), vec![]);
    assert_eq!(l.get_distance(&n(0, 0), &n(4, 4)), GraphWeight::Finite(1));
    assert_eq!(l.get_distance(&n(4, 4), &n(0, 0)), GraphWeight::Infinity);
}

#[test]
fn grid_from_fn_and_get() {
    let g = Grid::from_fn(|x, y| x * 10 + y, (3, 4));
    assert_eq!(g.dimensions(), (3, 4));
    assert_eq!(*g.get(0, 0), 0);
    assert_eq!(*g.get(2, 3), 23);
    assert_eq!(*g.get(1, 2), 12);
    let t = TerrainGraphLayer::from_grid(&g);
    assert_eq!(t.get_children(&n(2, 3)).len(), 2);
}

#[test]
fn dijkstra_straight_line() {
    let layers = vec![AnyLayer::Terrain(TerrainGraphLayer::new((5, 1)))];
    let p = dijkstra(&n(0, 0), &n(3, 0), &layers);
    assert_eq!(
        p.path,
        vec![
            (n(0, 0), GraphWeight::Finite(1)),
            (n(1, 0), GraphWeight::Finite(1)),
            (n(2, 0), GraphWeight::Finite(1)),
            (n(3, 0), GraphWeight::Finite(0)),
        ]
    );
    assert_eq!(p.cost(), GraphWeight::Finite(3));
}

#[test]
fn dijkstra_to_source_is_single_entry() {
    let layers = vec![AnyLayer::Terrain(TerrainGraphLayer::new((4, 4)))];
    let p = dijkstra(&n(2, 2), &n(2, 2), &layers);
    assert_eq!(p.path, vec![(n(2, 2), GraphWeight::Finite(0))]);
}

#[test]
fn dijkstra_unreachable_destination() {
    let layers = vec![AnyLayer::Terrain(TerrainGraphLayer::new((2, 2)))];
    let p = dijkstra(&n(0, 0), &n(7, 7), &layers);
    assert_eq!(p.path, vec![(n(7, 7), GraphWeight::Finite(0))]);
}

#[test]
fn dijkstra_grid_shortest_length() {
    let layers = vec![AnyLayer::Terrain(TerrainGraphLayer::new((6, 6)))];
    let p = dijkstra(&n(0, 0), &n(4, 3), &layers);
    assert_eq!(p.len(), 8);
    assert_eq!(p.path[0].0, n(0, 0));
    assert_eq!(p.endpoint(), Some(&n(4, 3)));
    assert_eq!(p.cost(), GraphWeight::Finite(7));
    for w in p.path.windows(2) {
        let (a, b) = (w[0].0, w[1].0);
        let dx = if a.0 > b.0 { a.0 - b.0 } else { b.0 - a.0 };
        let dy = if a.1 > b.1 { a.1 - b.1 } else { b.1 - a.1 };
        assert_eq!(dx + dy, 1);
    }
}

#[test]
fn dijkstra_takes_the_lift_shortcut() {
    let layers = vec![
        AnyLayer::Terrain(TerrainGraphLayer::new((10, 1))),
        AnyLayer::Lift(LiftLayer::new(n(1, 0), n(9, 0))),
    ];
    let p = dijkstra(&n(0, 0), &n(9, 0), &layers);
    assert_eq!(
        p.path,
        vec![
            (n(0, 0), GraphWeight::Finite(1)),
            (n(1, 0), GraphWeight::Finite(1)),
            (n(9, 0), GraphWeight::Finite(0)),
        ]
    );
    assert_eq!(p.cost(), GraphWeight::Finite(2));
}

#[test]
fn decisions_are_the_lifts_in_order() {
    let layers = vec![
        AnyLayer::Lift(LiftLayer::new(n(1, 1), n(2, 2))),
        AnyLayer::Terrain(TerrainGraphLayer::new((4, 4))),
        AnyLayer::Lift(LiftLayer::new(n(3, 3), n(0, 0))),
    ];
    let d = get_decisions(&layers);
    assert_eq!(
        d,
        vec![
            GoToLift { start: n(1, 1), end: n(2, 2) },
            GoToLift { start: n(3, 3), end: n(0, 0) },
        ]
    );
}

#[test]
fn decision_cost_infinite() {
    let c = DecisionCost::inf();
    assert_eq!(c.cost, GraphWeight::Infinity);
    assert_eq!(c.end, n(0, 0));
    assert!(c.path.is_empty());
}

#[test]
fn go_to_lift_cost() {
    let layers = vec![
        AnyLayer::Terrain(TerrainGraphLayer::new((5, 5))),
        AnyLayer::Lift(LiftLayer::new(n(2, 0), n(4, 4))),
    ];
    let lift = GoToLift { start: n(2, 0), end: n(4, 4) };
    let c = lift.get_cost(n(0, 0), &layers);
    assert_eq!(c.cost, GraphWeight::Finite(3));
    assert_eq!(c.end, n(4, 4));
    assert_eq!(c.path.endpoint(), Some(&n(2, 0)));
}

#[test]
fn decision_tree_levels() {
    let layers = vec![
        AnyLayer::Terrain(TerrainGraphLayer::new((5, 5))),
        AnyLayer::Lift(LiftLayer::new(n(0, 1), n(4, 4))),
        AnyLayer::Lift(LiftLayer::new(n(3, 3), n(0, 0))),
    ];
    let root = GoToLift { start: n(0, 1), end: n(4, 4) };
    let (tree, cost) = DecisionTree::build(n(0, 0), root, &layers, 0);
    assert_eq!(tree.root, root);
    assert!(tree.children.is_empty());
    assert_eq!(cost.cost, GraphWeight::Finite(2));
    assert_eq!(cost.end, n(4, 4));

    let (tree, cost) = DecisionTree::build(n(0, 0), root, &layers, 1);
    assert_eq!(tree.children.len(), 2);
    assert_eq!(tree.children[0].root, GoToLift { start: n(0, 1), end: n(4, 4) });
    assert_eq!(tree.children[1].root, GoToLift { start: n(3, 3), end: n(0, 0) });
    // from (4, 4): lift one costs 4 + 1 (down the second lift), lift two 2 + 1
    assert_eq!(cost.cost, GraphWeight::Finite(2 + 3));
    assert_eq!(cost.end, n(0, 0));
    assert_eq!(cost.path.endpoint(), Some(&n(3, 3)));
}

#[test]
fn decision_tree_new_picks_cheapest_plan() {
    let layers = vec![
        AnyLayer::Terrain(TerrainGraphLayer::new((5, 5))),
        AnyLayer::Lift(LiftLayer::new(n(0, 1), n(4, 4))),
        AnyLayer::Lift(LiftLayer::new(n(3, 3), n(0, 0))),
    ];
    let (tree, cost) = DecisionTree::new(n(0, 0), &layers);
    assert_eq!(tree.children.len(), 2);
    // plan from the first lift: 2, then 3 (second lift), then 2 (first lift again)
    // plan from the second lift: 5, then 2, then 3
    assert_eq!(tree.root, GoToLift { start: n(0, 1), end: n(4, 4) });
    assert_eq!(cost.cost, GraphWeight::Finite(7));
    assert_eq!(cost.end, n(4, 4));
}

#[test]
fn appended_paths_add_their_costs() {
    let a = Path::new(vec![(n(0, 0), GraphWeight::Finite(2)), (n(1, 0), GraphWeight::Finite(3))]);
    let b = Path::new(vec![(n(2, 0), GraphWeight::Finite(4))]);
    let c = a.clone().append(&b);
    assert_eq!(c.cost(), GraphWeight::Finite(9));
    let inf = Path::new(vec![(n(2, 0), GraphWeight::Infinity)]);
    assert_eq!(a.append(&inf).cost(), GraphWeight::Infinity);
}

#[test]
fn weights_order_like_integers_below_infinity() {
    assert!(GraphWeight::Finite(-3) < GraphWeight::Finite(2));
    assert!(GraphWeight::Finite(i32::MAX) < GraphWeight::Infinity);
    assert_eq!(
        std::cmp::max(GraphWeight::Finite(5), GraphWeight::Infinity),
        GraphWeight::Infinity
    );
}

#[test]
fn dijkstra_path_is_no_longer_than_another_route() {
    // a detour around the grid is longer than what the search returns
    let layers = vec![AnyLayer::Terrain(TerrainGraphLayer::new((4, 4)))];
    let p = dijkstra(&n(0, 0), &n(3, 3), &layers);
    assert_eq!(p.cost(), GraphWeight::Finite(6));
    assert_eq!(p.len(), 7);
}

#[test]
fn layer_distances() {
    let t = TerrainGraphLayer::new((3, 3));
    assert_eq!(t.get_distance(&n(1, 1), &n(1, 2)), GraphWeight::Finite(1));
    assert_eq!(t.get_distance(&n(1, 1), &n(2, 2)), GraphWeight::Infinity);
    assert_eq!(t.get_distance(&n(0, 0), &n(0, 0)), GraphWeight::Infinity);
    let any = AnyLayer::Lift(LiftLayer::new(n(0, 0), n(2, 2)));
    assert_eq!(any.get_distance(&n(0, 0), &n(2, 2)), GraphWeight::Finite(1));
    assert_eq!(any.get_distance(&n(2, 2), &n(0, 0)), GraphWeight::Infinity);
}

#[test]
fn planning_costs_the_cheapest_of_the_separate_plans() {
    let layers = vec![
        AnyLayer::Terrain(TerrainGraphLayer::new((5, 5))),
        AnyLayer::Lift(LiftLayer::new(n(0, 1), n(4, 4))),
        AnyLayer::Lift(LiftLayer::new(n(3, 3), n(0, 0))),
    ];
    let (_, best) = DecisionTree::new(n(0, 0), &layers);
    let first = DecisionTree::build(n(0, 0), GoToLift { start: n(0, 1), end: n(4, 4) }, &layers, 2).1;
    let second = DecisionTree::build(n(0, 0), GoToLift { start: n(3, 3), end: n(0, 0) }, &layers, 2).1;
    assert_eq!(first.cost, GraphWeight::Finite(7));
    assert_eq!(second.cost, GraphWeight::Finite(10));
    assert_eq!(best.cost, first.cost.min(second.cost));
    // the same plan costs the same each time
    let again = DecisionTree::build(n(0, 0), GoToLift { start: n(0, 1), end: n(4, 4) }, &layers, 2).1;
    assert_eq!(again.cost, first.cost);
}
