//! The skier's decisions: which lift to take next, planned a few lifts
//! ahead, choosing the plan of least total cost.
use crate::graph::{
    at_most, bounded_region, dijkstra, lemma_bounded_totals_fit, lemma_path_cost_nonneg, lemma_route_nonneg,
    lemma_short_route, dijkstra_path, ext_add, is_route, path_cost, reachable, route_cost, searchable,
    totals_fit, weight_le, weight_lt, weight_nonneg, weight_value, GraphLayer, GraphNode, GraphType,
    GraphWeight, Path,
};
use vstd::prelude::*;

verus! {

/// The cost of a decision: its total weight, where the skier ends up, and
/// the path the skier follows.
#[derive(Debug)]
pub struct DecisionCost {
    pub cost: GraphWeight,
    pub end: GraphNode,
    pub path: Path,
}

impl DecisionCost {
    /// An infinite cost that ends at the origin with an empty path.
    pub fn inf() -> (c: Self)
        ensures
            c.cost == GraphWeight::Infinity,
            c.end == GraphNode(0, 0),
            c.path.path@.len() == 0,
    {
        Self { cost: GraphWeight::Infinity, end: GraphNode(0, 0), path: Path::empty() }
    }
}

/// The decision to ski to a lift's bottom station and ride it to the top.
#[derive(Debug, Clone, Copy, PartialEq, Eq, Structural)]
pub struct GoToLift {
    pub start: GraphNode,
    pub end: GraphNode,
}

/// `c` is what riding `lift` from `start` costs: the path Dijkstra's search
/// finds from `start` to the lift's bottom station, its total weight plus
/// one for the ride, ending at the top station.
pub open spec fn lift_cost_ok<L: GraphLayer>(g: Seq<L>, start: GraphNode, lift: GoToLift, c: DecisionCost) -> bool {
    &&& dijkstra_path(g, start, lift.start, c.path.path@)
    &&& weight_value(c.cost) == ext_add(path_cost(c.path.path@), Some(1int))
    &&& c.end == lift.end
}

/// The lifts among the layers, in the order of the layers.
pub open spec fn lifts_of<L: GraphLayer>(g: Seq<L>) -> Seq<GoToLift>
    decreases g.len(),
{
    if g.len() == 0 {
        Seq::empty()
    } else {
        let rest = lifts_of(g.drop_last());
        match g.last().spec_type() {
            GraphType::Lift { start, end } => rest.push(GoToLift { start, end }),
            GraphType::Terrain => rest,
        }
    }
}

/// `m` is the first of the least weights of `costs`.
pub open spec fn first_min(costs: Seq<GraphWeight>, m: int) -> bool {
    &&& 0 <= m < costs.len()
    &&& forall|j: int| 0 <= j < m ==> weight_lt(costs[m], #[trigger] costs[j])
    &&& forall|j: int| m < j < costs.len() ==> weight_le(costs[m], #[trigger] costs[j])
}

/// A tree of decisions: the decision at its root, and for each lift the
/// tree of decisions that can follow it.
pub struct DecisionTree {
    pub root: GoToLift,
    pub children: Vec<DecisionTree>,
}

/// The weights of a sequence of costs.
pub open spec fn cost_weights(cs: Seq<DecisionCost>) -> Seq<GraphWeight> {
    Seq::new(cs.len(), |i: int| cs[i].cost)
}

/// `tree` and `c` are what planning `levels` lifts beyond `root` from
/// `start` gives: the root decision costs `rc`; below it there is one
/// subtree for each lift, planned from the top of `root`'s lift, and `c`
/// continues with the first cheapest of them, its cost added to `rc`'s.
pub open spec fn plan_ok<L: GraphLayer>(
    g: Seq<L>,
    start: GraphNode,
    root: GoToLift,
    levels: nat,
    tree: DecisionTree,
    c: DecisionCost,
) -> bool
    decreases levels,
{
    &&& tree.root == root
    &&& exists|rc: DecisionCost, ccs: Seq<DecisionCost>|
        #![trigger lift_cost_ok(g, start, root, rc), ccs.len()]
        {
            &&& lift_cost_ok(g, start, root, rc)
            &&& if levels == 0 {
                &&& tree.children@.len() == 0
                &&& c == rc
            } else {
                let lifts = lifts_of(g);
                &&& tree.children@.len() == lifts.len()
                &&& ccs.len() == lifts.len()
                &&& forall|i: int|
                    0 <= i < lifts.len() ==> plan_ok(
                        g,
                        rc.end,
                        lifts[i],
                        (levels - 1) as nat,
                        #[trigger] tree.children@[i],
                        ccs[i],
                    )
                &&& if lifts.len() == 0 {
                    c == rc
                } else {
                    exists|m: int|
                        #![trigger first_min(cost_weights(ccs), m)]
                        {
                            &&& first_min(cost_weights(ccs), m)
                            &&& weight_value(c.cost) == ext_add(
                                weight_value(ccs[m].cost),
                                weight_value(rc.cost),
                            )
                            &&& c.path == ccs[m].path
                            &&& c.end == ccs[m].end
                        }
                }
            }
        }
}


/// `c` is the total of some route from `s` to `t`, and no route has a
/// smaller one.
pub open spec fn least_route_cost<L: GraphLayer>(g: Seq<L>, s: GraphNode, t: GraphNode, c: Option<int>) -> bool {
    &&& exists|q: Seq<(GraphNode, GraphWeight)>| #[trigger] is_route(g, q, s, t) && route_cost(q) == c
    &&& forall|q: Seq<(GraphNode, GraphWeight)>| #[trigger] is_route(g, q, s, t) ==> at_most(c, route_cost(q))
}

/// The least total of the routes from `s` to `t`, `None` standing for
/// infinity. Where no route leads there it is zero: Dijkstra's search then
/// hands back the path of `t` alone.
pub open spec fn shortest<L: GraphLayer>(g: Seq<L>, s: GraphNode, t: GraphNode) -> Option<int> {
    if reachable(g, s, t) {
        choose|c: Option<int>| #[trigger] least_route_cost(g, s, t, c)
    } else {
        Some(0)
    }
}

/// What taking `lift` from `start` costs: the way to its bottom station and
/// one for the ride.
pub open spec fn lift_total<L: GraphLayer>(g: Seq<L>, start: GraphNode, lift: GoToLift) -> Option<int> {
    ext_add(shortest(g, start, lift.start), Some(1))
}

/// The smaller of two totals.
pub open spec fn min_total(a: Option<int>, b: Option<int>) -> Option<int> {
    if at_most(a, b) {
        a
    } else {
        b
    }
}

/// The least of the totals, infinity for none.
pub open spec fn least(ts: Seq<Option<int>>) -> Option<int>
    decreases ts.len(),
{
    if ts.len() == 0 {
        None
    } else {
        min_total(least(ts.drop_last()), ts.last())
    }
}

/// The total cost of the plan that takes `root` from `start` and then,
/// `levels` times, the cheapest continuation over all lifts.
pub open spec fn plan_total<L: GraphLayer>(g: Seq<L>, start: GraphNode, root: GoToLift, levels: nat) -> Option<int>
    decreases levels, lifts_of(g).len() + 1,
{
    let rc = lift_total(g, start, root);
    if levels == 0 || lifts_of(g).len() == 0 {
        rc
    } else {
        ext_add(least_plan(g, root.end, (levels - 1) as nat, lifts_of(g).len()), rc)
    }
}

/// The least total of the plans from `from` that look `levels` lifts
/// beyond one of the first `n` lifts.
pub open spec fn least_plan<L: GraphLayer>(g: Seq<L>, from: GraphNode, levels: nat, n: nat) -> Option<int>
    decreases levels + 1, n,
{
    if n == 0 || n > lifts_of(g).len() {
        None
    } else {
        min_total(
            least_plan(g, from, levels, (n - 1) as nat),
            plan_total(g, from, lifts_of(g)[n - 1], levels),
        )
    }
}

/// The totals of the plans from `from` that look `levels` lifts beyond
/// each lift.
pub open spec fn plan_totals<L: GraphLayer>(g: Seq<L>, from: GraphNode, levels: nat) -> Seq<Option<int>> {
    Seq::new(lifts_of(g).len(), |i: int| plan_total(g, from, lifts_of(g)[i], levels))
}

/// `least_plan` is the least of the totals of the plans.
proof fn lemma_least_plan<L: GraphLayer>(g: Seq<L>, from: GraphNode, levels: nat, n: nat)
    requires
        n <= lifts_of(g).len(),
    ensures
        least_plan(g, from, levels, n) == least(plan_totals(g, from, levels).take(n as int)),
    decreases n,
{
    let ts = plan_totals(g, from, levels);
    if n > 0 {
        lemma_least_plan(g, from, levels, (n - 1) as nat);
        assert(ts.take(n as int).drop_last() =~= ts.take(n - 1));
        assert(ts.take(n as int).last() == ts[n - 1]);
    } else {
        assert(ts.take(0) =~= Seq::<Option<int>>::empty());
    }
}

/// A finite total lies in `i32`.
pub open spec fn fits_i32(t: Option<int>) -> bool {
    t matches Some(x) ==> x <= i32::MAX
}

/// Every cost that planning `levels` lifts beyond `root` from `start` adds
/// up fits in `i32`: each search from a starting point meets finitely many
/// nodes and its distances fit, and so do each decision's cost and each
/// sum of a decision's cost with its cheapest continuation.
pub open spec fn plan_fits<L: GraphLayer>(g: Seq<L>, start: GraphNode, root: GoToLift, levels: nat) -> bool
    decreases levels,
{
    &&& searchable(g, start)
    &&& totals_fit(g, start)
    &&& fits_i32(lift_total(g, start, root))
    &&& levels > 0 ==> {
        &&& forall|i: int|
            0 <= i < lifts_of(g).len() ==> plan_fits(
                g,
                root.end,
                #[trigger] lifts_of(g)[i],
                (levels - 1) as nat,
            )
        &&& fits_i32(plan_total(g, start, root, levels))
    }
}

/// The path Dijkstra's search hands back costs the shortest distance.
pub proof fn lemma_dijkstra_cost<L: GraphLayer>(
    g: Seq<L>,
    s: GraphNode,
    t: GraphNode,
    p: Seq<(GraphNode, GraphWeight)>,
)
    requires
        dijkstra_path(g, s, t, p),
    ensures
        path_cost(p) == shortest(g, s, t),
{
    assert(path_cost(p) == ext_add(path_cost(p.drop_last()), weight_value(p.last().1)));
    if reachable(g, s, t) {
        assert(is_route(g, p, s, t));
        assert(route_cost(p) == path_cost(p));
        assert(least_route_cost(g, s, t, path_cost(p)));
        let c = shortest(g, s, t);
        assert(least_route_cost(g, s, t, c));
        let q = choose|q: Seq<(GraphNode, GraphWeight)>| #[trigger]
            is_route(g, q, s, t) && route_cost(q) == c;
        assert(at_most(path_cost(p), route_cost(q)));
        assert(at_most(c, route_cost(p)));
    } else {
        if p.len() > 1 {
            assert(is_route(g, p, s, t));
        }
        assert(p.drop_last() =~= Seq::<(GraphNode, GraphWeight)>::empty());
    }
}

/// The least total is at most each of them.
proof fn lemma_least_le(ts: Seq<Option<int>>)
    ensures
        forall|j: int| 0 <= j < ts.len() ==> at_most(least(ts), #[trigger] ts[j]),
    decreases ts.len(),
{
    if ts.len() > 0 {
        lemma_least_le(ts.drop_last());
        assert forall|j: int| 0 <= j < ts.len() implies at_most(least(ts), #[trigger] ts[j]) by {
            if j < ts.len() - 1 {
                assert(ts.drop_last()[j] == ts[j]);
            }
        }
    }
}

/// The least of some totals is one of them.
proof fn lemma_least_in(ts: Seq<Option<int>>) -> (j: int)
    requires
        ts.len() > 0,
    ensures
        0 <= j < ts.len(),
        least(ts) == ts[j],
    decreases ts.len(),
{
    if ts.len() == 1 {
        0
    } else {
        let k = lemma_least_in(ts.drop_last());
        if at_most(least(ts.drop_last()), ts.last()) {
            k
        } else {
            ts.len() - 1
        }
    }
}

/// Where `m` is the first of the least weights, its value is the least
/// total.
proof fn lemma_first_min_least(ws: Seq<GraphWeight>, ts: Seq<Option<int>>, m: int)
    requires
        first_min(ws, m),
        ws.len() == ts.len(),
        forall|i: int| 0 <= i < ts.len() ==> #[trigger] ts[i] == weight_value(ws[i]),
    ensures
        ts[m] == least(ts),
{
    lemma_least_le(ts);
    let j = lemma_least_in(ts);
    assert(at_most(least(ts), ts[m]));
    if j < m {
        assert(weight_lt(ws[m], ws[j]));
    } else if j > m {
        assert(weight_le(ws[m], ws[j]));
    }
}

/// Some route from `s` to `t` in a bounded region around `s` costs at most
/// `k`, so the routes have a least total.
proof fn lemma_least_route_below<L: GraphLayer>(
    g: Seq<L>,
    nodes: Set<GraphNode>,
    wmax: int,
    s: GraphNode,
    t: GraphNode,
    k: nat,
)
    requires
        bounded_region(g, nodes, wmax),
        nodes.contains(s),
        exists|q: Seq<(GraphNode, GraphWeight)>|
            #[trigger] is_route(g, q, s, t) && (route_cost(q) matches Some(x) && x <= k),
    ensures
        exists|c: Option<int>| #[trigger] least_route_cost(g, s, t, c),
    decreases k,
{
    if exists|q: Seq<(GraphNode, GraphWeight)>|
        #[trigger] is_route(g, q, s, t) && (route_cost(q) matches Some(x) && x < k) {
        let q = choose|q: Seq<(GraphNode, GraphWeight)>|
            #[trigger] is_route(g, q, s, t) && (route_cost(q) matches Some(x) && x < k);
        if k == 0 {
            lemma_route_nonneg(g, nodes, wmax, q);
            lemma_path_cost_nonneg(q.drop_last());
        } else {
            lemma_least_route_below(g, nodes, wmax, s, t, (k - 1) as nat);
        }
    } else {
        let q = choose|q: Seq<(GraphNode, GraphWeight)>|
            #[trigger] is_route(g, q, s, t) && (route_cost(q) matches Some(x) && x <= k);
        assert(route_cost(q) == Some(k as int));
        assert(least_route_cost(g, s, t, Some(k as int)));
    }
}

/// In a bounded region around `s`, the routes from `s` to a node that a
/// route leads to have a least total.
proof fn lemma_least_route_exists<L: GraphLayer>(
    g: Seq<L>,
    nodes: Set<GraphNode>,
    wmax: int,
    s: GraphNode,
    t: GraphNode,
)
    requires
        bounded_region(g, nodes, wmax),
        nodes.contains(s),
        reachable(g, s, t),
    ensures
        least_route_cost(g, s, t, shortest(g, s, t)),
{
    if exists|q: Seq<(GraphNode, GraphWeight)>| #[trigger] is_route(g, q, s, t) && route_cost(q) is Some {
        let q = choose|q: Seq<(GraphNode, GraphWeight)>| #[trigger] is_route(g, q, s, t) && route_cost(q) is Some;
        lemma_route_nonneg(g, nodes, wmax, q);
        lemma_path_cost_nonneg(q.drop_last());
        let x = route_cost(q)->0;
        lemma_least_route_below(g, nodes, wmax, s, t, x as nat);
    } else {
        let q0 = choose|q: Seq<(GraphNode, GraphWeight)>| #[trigger] is_route(g, q, s, t);
        assert(least_route_cost(g, s, t, None));
    }
}

/// In a bounded region around `s`, a finite shortest distance is at most
/// the region's size times its greatest weight.
proof fn lemma_shortest_bound<L: GraphLayer>(
    g: Seq<L>,
    nodes: Set<GraphNode>,
    wmax: int,
    s: GraphNode,
    t: GraphNode,
)
    requires
        bounded_region(g, nodes, wmax),
        nodes.contains(s),
    ensures
        shortest(g, s, t) matches Some(c) ==> 0 <= c <= nodes.len() * wmax,
{
    assert(nodes.len() * wmax >= 0) by (nonlinear_arith)
        requires
            wmax >= 0,
    ;
    if reachable(g, s, t) {
        lemma_least_route_exists(g, nodes, wmax, s, t);
        let c = shortest(g, s, t);
        let q = choose|q: Seq<(GraphNode, GraphWeight)>| #[trigger] is_route(g, q, s, t) && route_cost(q) == c;
        let r = lemma_short_route(g, nodes, wmax, s, t, q);
        assert(at_most(c, route_cost(r)));
        lemma_route_nonneg(g, nodes, wmax, q);
        lemma_path_cost_nonneg(q.drop_last());
    }
}

/// The least of totals that are each infinite or within `0..=b` is so too.
proof fn lemma_least_bound(ts: Seq<Option<int>>, b: int)
    requires
        forall|i: int| 0 <= i < ts.len() ==> (#[trigger] ts[i] matches Some(x) ==> 0 <= x <= b),
    ensures
        least(ts) matches Some(x) ==> 0 <= x <= b,
{
    if ts.len() > 0 {
        let j = lemma_least_in(ts);
    }
}

/// On a map where some bounded region around `start` holds the top station
/// of every lift and of `root`, and `levels + 1` times one more than the
/// region's size times its greatest weight fits in `i32`, every sum of
/// planning fits, and the plan's total is within that bound.
pub proof fn lemma_bounded_plan_fits<L: GraphLayer>(
    g: Seq<L>,
    start: GraphNode,
    root: GoToLift,
    levels: nat,
    nodes: Set<GraphNode>,
    wmax: int,
)
    requires
        bounded_region(g, nodes, wmax),
        nodes.contains(start),
        nodes.contains(root.end),
        forall|i: int| 0 <= i < lifts_of(g).len() ==> nodes.contains(#[trigger] lifts_of(g)[i].end),
        (levels + 1) * (nodes.len() * wmax + 1) <= i32::MAX,
    ensures
        plan_fits(g, start, root, levels),
        plan_total(g, start, root, levels) matches Some(x) ==> 0 <= x <= (levels + 1) * (nodes.len()
            * wmax + 1),
    decreases levels,
{
    let b = nodes.len() * wmax;
    assert(nodes.len() * wmax >= 0) by (nonlinear_arith)
        requires
            wmax >= 0,
    ;
    assert((levels + 1) * (b + 1) >= b + 1) by (nonlinear_arith)
        requires
            b >= 0,
    ;
    lemma_bounded_totals_fit(g, start, nodes, wmax);
    lemma_shortest_bound(g, nodes, wmax, start, root.start);
    assert(searchable(g, start));
    if levels > 0 {
        let lv = (levels - 1) as nat;
        assert(levels * (b + 1) <= (levels + 1) * (b + 1)) by (nonlinear_arith)
            requires
                b >= 0,
        ;
        assert((lv + 1) == levels);
        assert forall|i: int| 0 <= i < lifts_of(g).len() implies plan_fits(
            g,
            root.end,
            #[trigger] lifts_of(g)[i],
            lv,
        ) && (plan_total(g, root.end, lifts_of(g)[i], lv) matches Some(x) ==> 0 <= x <= levels * (b + 1)) by {
            lemma_bounded_plan_fits(g, root.end, lifts_of(g)[i], lv, nodes, wmax);
        }
        if lifts_of(g).len() > 0 {
            let ts = plan_totals(g, root.end, lv);
            assert forall|i: int| 0 <= i < ts.len() implies (#[trigger] ts[i] matches Some(x) ==> 0 <= x
                <= levels * (b + 1)) by {
                assert(ts[i] == plan_total(g, root.end, lifts_of(g)[i], lv));
            }
            lemma_least_bound(ts, levels * (b + 1));
            lemma_least_plan(g, root.end, lv, lifts_of(g).len());
            assert(ts.take(ts.len() as int) =~= ts);
            assert(levels * (b + 1) + (b + 1) == (levels + 1) * (b + 1)) by (nonlinear_arith);
        }
    }
}

/// Gets the possible decisions: one for each lift among the layers.
pub fn get_decisions<L: GraphLayer>(layers: &[L]) -> (d: Vec<GoToLift>)
    ensures
        d@ == lifts_of(layers@),
{
    let mut d: Vec<GoToLift> = Vec::new();
    let mut i: usize = 0;
    while i < layers.len()
        invariant
            i <= layers@.len(),
            d@ == lifts_of(layers@.take(i as int)),
        decreases layers@.len() - i,
    {
        let t = layers[i].get_type();
        assert(layers@.take(i as int + 1).drop_last() =~= layers@.take(i as int));
        assert(layers@.take(i as int + 1).last() == layers@[i as int]);
        match t {
            GraphType::Lift { start, end } => {
                d.push(GoToLift { start, end });
            },
            GraphType::Terrain => {},
        }
        i = i + 1;
    }
    assert(layers@.take(i as int) =~= layers@);
    d
}

/// A choice the skier can make from some starting point.
pub trait Decision<L: GraphLayer> {
    /// `c` is what this decision costs from `start` in the graph `g`.
    spec fn cost_ok(&self, g: Seq<L>, start: GraphNode, c: DecisionCost) -> bool;

    /// Working out the cost from `start` in `g` keeps every sum in `i32`.
    spec fn cost_fits(&self, g: Seq<L>, start: GraphNode) -> bool;

    /// What the decision costs from `start`.
    fn get_cost(&self, start: GraphNode, layers: &[L]) -> (c: DecisionCost)
        requires
            self.cost_fits(layers@, start),
        ensures
            self.cost_ok(layers@, start, c),
    ;
}

impl<L: GraphLayer> Decision<L> for GoToLift {
    /// The lift's cost is the one `lift_cost_ok` describes: the shortest
    /// way to the bottom station plus one; it is not negative.
    open spec fn cost_ok(&self, g: Seq<L>, start: GraphNode, c: DecisionCost) -> bool {
        &&& lift_cost_ok(g, start, *self, c)
        &&& weight_nonneg(c.cost)
        &&& weight_value(c.cost) == lift_total(g, start, *self)
    }

    /// The search from `start` meets finitely many nodes, its distances
    /// fit in `i32`, and so does the lift's cost.
    open spec fn cost_fits(&self, g: Seq<L>, start: GraphNode) -> bool {
        &&& searchable(g, start)
        &&& totals_fit(g, start)
        &&& fits_i32(lift_total(g, start, *self))
    }

    /// Cost of skiing from `start` to the lift along the path Dijkstra's
    /// search finds, plus one for riding the lift.
    fn get_cost(&self, start: GraphNode, layers: &[L]) -> (c: DecisionCost) {
        let path = dijkstra(&start, &self.start, layers);
        let cost = path.cost();
        proof {
            crate::graph::lemma_path_cost_nonneg(path.path@);
            lemma_dijkstra_cost(layers@, start, self.start, path.path@);
        }
        let total = cost.add(GraphWeight::Finite(1));
        DecisionCost { cost: total, path, end: self.end }
    }
}

impl DecisionTree {
    /// Plans `recurse_levels` further lifts after `root` from `start`: every
    /// lift is tried after `root`, recursively, and the returned cost is
    /// `root`'s cost plus that of the first cheapest continuation.
    /// If recurse_levels hits zero recursion is stopped
    pub fn build<L: GraphLayer>(start: GraphNode, root: GoToLift, layers: &[L], recurse_levels: u8) -> (r: (
        Self,
        DecisionCost,
    ))
        requires
            plan_fits(layers@, start, root, recurse_levels as nat),
        ensures
            plan_ok(layers@, start, root, recurse_levels as nat, r.0, r.1),
            weight_nonneg(r.1.cost),
            weight_value(r.1.cost) == plan_total(layers@, start, root, recurse_levels as nat),
        decreases recurse_levels,
    {
        let ghost g = layers@;
        let ghost levels = recurse_levels as nat;
        let root_cost = root.get_cost(start, layers);
        let ghost rc = root_cost;
        if recurse_levels > 0 {
            let decisions = get_decisions(layers);
            let ghost totals = plan_totals(g, root.end, (levels - 1) as nat);
            let mut children: Vec<DecisionTree> = Vec::new();
            let mut costs: Vec<DecisionCost> = Vec::new();
            let mut m: usize = 0;
            let mut i: usize = 0;
            while i < decisions.len()
                invariant
                    g == layers@,
                    levels == recurse_levels as nat,
                    root_cost == rc,
                    decisions@ == lifts_of(g),
                    0 < recurse_levels,
                    i <= decisions@.len(),
                    children@.len() == i,
                    costs@.len() == i,
                    i > 0 ==> first_min(cost_weights(costs@), m as int),
                    i == 0 ==> m == 0,
                    lift_cost_ok(g, start, root, rc),
                    plan_fits(g, start, root, levels),
                    totals == plan_totals(g, root.end, (levels - 1) as nat),
                    forall|k: int|
                        0 <= k < i ==> plan_ok(
                            g,
                            rc.end,
                            decisions@[k],
                            (levels - 1) as nat,
                            #[trigger] children@[k],
                            costs@[k],
                        ),
                    forall|k: int|
                        0 <= k < i ==> weight_nonneg(#[trigger] costs@[k].cost) && weight_value(
                            costs@[k].cost,
                        ) == totals[k],
                decreases decisions@.len() - i,
            {
                proof {
                    assert(plan_fits(g, root.end, lifts_of(g)[i as int], (levels - 1) as nat));
                }
                let (child, child_cost) = DecisionTree::build(
                    root_cost.end,
                    decisions[i],
                    layers,
                    recurse_levels - 1,
                );
                let ghost old_costs = costs@;
                children.push(child);
                costs.push(child_cost);
                if i > 0 {
                    if costs[i].cost.lt(&costs[m].cost) {
                        proof {
                            assert forall|j: int| 0 <= j < i implies weight_lt(
                                costs@[i as int].cost,
                                #[trigger] cost_weights(costs@)[j],
                            ) by {
                                crate::graph::lemma_weight_order(
                                    costs@[i as int].cost,
                                    costs@[m as int].cost,
                                    costs@[j].cost,
                                );
                                assert(cost_weights(old_costs)[j] == costs@[j].cost);
                                assert(cost_weights(old_costs)[m as int] == costs@[m as int].cost);
                            }
                        }
                        m = i;
                        assert(first_min(cost_weights(costs@), m as int));
                    } else {
                        proof {
                            crate::graph::lemma_weight_order(
                                costs@[m as int].cost,
                                costs@[i as int].cost,
                                costs@[m as int].cost,
                            );
                            assert forall|j: int| 0 <= j < m implies weight_lt(
                                cost_weights(costs@)[m as int],
                                #[trigger] cost_weights(costs@)[j],
                            ) by {
                                assert(cost_weights(old_costs)[j] == costs@[j].cost);
                                assert(cost_weights(old_costs)[m as int] == costs@[m as int].cost);
                            }
                            assert forall|j: int| m < j < i + 1 implies weight_le(
                                cost_weights(costs@)[m as int],
                                #[trigger] cost_weights(costs@)[j],
                            ) by {
                                if j < i {
                                    assert(cost_weights(old_costs)[j] == costs@[j].cost);
                                    assert(cost_weights(old_costs)[m as int]
                                        == costs@[m as int].cost);
                                }
                            }
                            assert(first_min(cost_weights(costs@), m as int));
                        }
                    }
                } else {
                    assert(cost_weights(costs@).len() == 1);
                    assert(first_min(cost_weights(costs@), m as int));
                }
                i = i + 1;
            }
            let ghost ccs = costs@;
            proof {
                assert(children@.len() == lifts_of(g).len());
            }
            if costs.len() == 0 {
                let tree = Self { root, children };
                proof {
                    assert(lift_cost_ok(g, start, root, rc) && ccs.len() == lifts_of(g).len());
                }
                (tree, root_cost)
            } else {
                let child_cost = costs.swap_remove(m);
                proof {
                    assert(child_cost == ccs[m as int]);
                    assert(cost_weights(ccs)[m as int] == ccs[m as int].cost);
                    assert forall|k: int| 0 <= k < totals.len() implies #[trigger] totals[k]
                        == weight_value(cost_weights(ccs)[k]) by {
                        assert(cost_weights(ccs)[k] == ccs[k].cost);
                    }
                    lemma_first_min_least(cost_weights(ccs), totals, m as int);
                    lemma_least_plan(g, root.end, (levels - 1) as nat, lifts_of(g).len());
                    assert(totals.take(totals.len() as int) =~= totals);
                }
                let cost = DecisionCost {
                    cost: child_cost.cost.add(root_cost.cost),
                    path: child_cost.path,
                    end: child_cost.end,
                };
                let tree = Self { root, children };
                proof {
                    assert(lift_cost_ok(g, start, root, rc) && ccs.len() == lifts_of(g).len());
                    assert(first_min(cost_weights(ccs), m as int));
                }
                (tree, cost)
            }
        } else {
            let tree = Self { root, children: Vec::new() };
            proof {
                let ccs = Seq::<DecisionCost>::empty();
                assert(lift_cost_ok(g, start, root, rc) && ccs.len() == 0);
            }
            (tree, root_cost)
        }
    }
}

/// `tree` and `c` are the first cheapest of the plans that start with each
/// lift from `start` and look `levels` lifts further.
pub open spec fn best_plan<L: GraphLayer>(
    g: Seq<L>,
    start: GraphNode,
    levels: nat,
    tree: DecisionTree,
    c: DecisionCost,
) -> bool {
    exists|ccs: Seq<DecisionCost>, trees: Seq<DecisionTree>, m: int|
        #![trigger first_min(cost_weights(ccs), m), trees.len()]
        {
            &&& ccs.len() == lifts_of(g).len()
            &&& trees.len() == lifts_of(g).len()
            &&& forall|i: int|
                0 <= i < ccs.len() ==> plan_ok(g, start, lifts_of(g)[i], levels, #[trigger] trees[i], ccs[i])
            &&& first_min(cost_weights(ccs), m)
            &&& tree == trees[m]
            &&& c == ccs[m]
        }
}

/// Whatever path a plan follows, its cost is the plan's total: a plan that
/// `plan_ok` describes costs `plan_total`, so the cost of a plan does not
/// depend on which of several equally short paths was taken.
pub proof fn lemma_plan_cost<L: GraphLayer>(
    g: Seq<L>,
    start: GraphNode,
    root: GoToLift,
    levels: nat,
    tree: DecisionTree,
    c: DecisionCost,
)
    requires
        plan_ok(g, start, root, levels, tree, c),
    ensures
        weight_value(c.cost) == plan_total(g, start, root, levels),
    decreases levels,
{
    let (rc, ccs) = choose|rc: DecisionCost, ccs: Seq<DecisionCost>|
        #![trigger lift_cost_ok(g, start, root, rc), ccs.len()]
        {
            &&& lift_cost_ok(g, start, root, rc)
            &&& if levels == 0 {
                &&& tree.children@.len() == 0
                &&& c == rc
            } else {
                let lifts = lifts_of(g);
                &&& tree.children@.len() == lifts.len()
                &&& ccs.len() == lifts.len()
                &&& forall|i: int|
                    0 <= i < lifts.len() ==> plan_ok(
                        g,
                        rc.end,
                        lifts[i],
                        (levels - 1) as nat,
                        #[trigger] tree.children@[i],
                        ccs[i],
                    )
                &&& if lifts.len() == 0 {
                    c == rc
                } else {
                    exists|m: int|
                        #![trigger first_min(cost_weights(ccs), m)]
                        {
                            &&& first_min(cost_weights(ccs), m)
                            &&& weight_value(c.cost) == ext_add(
                                weight_value(ccs[m].cost),
                                weight_value(rc.cost),
                            )
                            &&& c.path == ccs[m].path
                            &&& c.end == ccs[m].end
                        }
                }
            }
        };
    lemma_dijkstra_cost(g, start, root.start, rc.path.path@);
    assert(weight_value(rc.cost) == lift_total(g, start, root));
    if levels > 0 && lifts_of(g).len() > 0 {
        let lifts = lifts_of(g);
        let totals = plan_totals(g, root.end, (levels - 1) as nat);
        assert forall|i: int| 0 <= i < totals.len() implies #[trigger] totals[i] == weight_value(
            cost_weights(ccs)[i],
        ) by {
            assert(plan_ok(g, rc.end, lifts[i], (levels - 1) as nat, tree.children@[i], ccs[i]));
            lemma_plan_cost(g, rc.end, lifts[i], (levels - 1) as nat, tree.children@[i], ccs[i]);
            assert(cost_weights(ccs)[i] == ccs[i].cost);
        }
        let m = choose|m: int| #![trigger first_min(cost_weights(ccs), m)]
            {
                &&& first_min(cost_weights(ccs), m)
                &&& weight_value(c.cost) == ext_add(weight_value(ccs[m].cost), weight_value(rc.cost))
                &&& c.path == ccs[m].path
                &&& c.end == ccs[m].end
            };
        lemma_first_min_least(cost_weights(ccs), totals, m);
        lemma_least_plan(g, root.end, (levels - 1) as nat, lifts.len());
        assert(totals.take(totals.len() as int) =~= totals);
        assert(cost_weights(ccs)[m] == ccs[m].cost);
    }
}

/// Planning from `start` gives the cheapest of the plans that each lift
/// begins, as separate plans of the same depth cost them.
pub proof fn lemma_best_plan_cost<L: GraphLayer>(
    g: Seq<L>,
    start: GraphNode,
    levels: nat,
    tree: DecisionTree,
    c: DecisionCost,
)
    requires
        best_plan(g, start, levels, tree, c),
    ensures
        weight_value(c.cost) == least(plan_totals(g, start, levels)),
{
    let (ccs, trees, m) = choose|ccs: Seq<DecisionCost>, trees: Seq<DecisionTree>, m: int|
        #![trigger first_min(cost_weights(ccs), m), trees.len()]
        {
            &&& ccs.len() == lifts_of(g).len()
            &&& trees.len() == lifts_of(g).len()
            &&& forall|i: int|
                0 <= i < ccs.len() ==> plan_ok(g, start, lifts_of(g)[i], levels, #[trigger] trees[i], ccs[i])
            &&& first_min(cost_weights(ccs), m)
            &&& tree == trees[m]
            &&& c == ccs[m]
        };
    let totals = plan_totals(g, start, levels);
    assert forall|i: int| 0 <= i < totals.len() implies #[trigger] totals[i] == weight_value(
        cost_weights(ccs)[i],
    ) by {
        assert(plan_ok(g, start, lifts_of(g)[i], levels, trees[i], ccs[i]));
        lemma_plan_cost(g, start, lifts_of(g)[i], levels, trees[i], ccs[i]);
        assert(cost_weights(ccs)[i] == ccs[i].cost);
    }
    lemma_first_min_least(cost_weights(ccs), totals, m);
    assert(cost_weights(ccs)[m] == ccs[m].cost);
}

impl DecisionTree {
    /// Plans from `start`: tries every lift first, each followed by two
    /// more levels of lifts, and keeps the first cheapest plan.
    pub fn new<L: GraphLayer>(start: GraphNode, layers: &[L]) -> (r: (Self, DecisionCost))
        requires
            lifts_of(layers@).len() > 0,
            forall|i: int|
                0 <= i < lifts_of(layers@).len() ==> #[trigger] plan_fits(layers@, start, lifts_of(layers@)[i], 2),
        ensures
            best_plan(layers@, start, 2, r.0, r.1),
            weight_value(r.1.cost) == least(plan_totals(layers@, start, 2)),
    {
        let ghost g = layers@;
        let ghost totals = plan_totals(g, start, 2);
        let decisions = get_decisions(layers);
        let mut out: Option<(Self, DecisionCost)> = None;
        let ghost mut ccs: Seq<DecisionCost> = Seq::empty();
        let ghost mut trees: Seq<DecisionTree> = Seq::empty();
        let ghost mut m: int = 0;
        let mut i: usize = 0;
        while i < decisions.len()
            invariant
                g == layers@,
                decisions@ == lifts_of(g),
                i <= decisions@.len(),
                ccs.len() == i,
                trees.len() == i,
                forall|k: int|
                    0 <= k < i ==> plan_ok(g, start, decisions@[k], 2, #[trigger] trees[k], ccs[k]),
                i == 0 ==> out is None,
                i > 0 ==> {
                    &&& first_min(cost_weights(ccs), m)
                    &&& out matches Some(o)
                    &&& o.0 == trees[m]
                    &&& o.1 == ccs[m]
                },
                forall|k: int|
                    0 <= k < i ==> #[trigger] totals[k] == weight_value(ccs[k].cost),
                totals == plan_totals(g, start, 2),
                forall|k: int|
                    0 <= k < lifts_of(g).len() ==> #[trigger] plan_fits(g, start, lifts_of(g)[k], 2),
            decreases decisions@.len() - i,
        {
            let decision = decisions[i];
            proof {
                assert(plan_fits(g, start, lifts_of(g)[i as int], 2));
            }
            let (tree, cost) = Self::build(start, decision, layers, 2);
            let ghost old_ccs = ccs;
            proof {
                ccs = ccs.push(cost);
                trees = trees.push(tree);
            }
            let replace = match &out {
                Some(o) => cost.cost.lt(&o.1.cost),
                None => true,
            };
            if replace {
                proof {
                    if i > 0 {
                        assert forall|j: int| 0 <= j < i implies weight_lt(
                            cost.cost,
                            #[trigger] cost_weights(ccs)[j],
                        ) by {
                            crate::graph::lemma_weight_order(cost.cost, ccs[m].cost, ccs[j].cost);
                            assert(cost_weights(old_ccs)[j] == ccs[j].cost);
                            assert(cost_weights(old_ccs)[m] == ccs[m].cost);
                        }
                    }
                    m = i as int;
                }
                out = Some((tree, cost));
            } else {
                proof {
                    crate::graph::lemma_weight_order(ccs[m].cost, cost.cost, ccs[m].cost);
                    assert forall|j: int| 0 <= j < m implies weight_lt(
                        cost_weights(ccs)[m],
                        #[trigger] cost_weights(ccs)[j],
                    ) by {
                        assert(cost_weights(old_ccs)[j] == ccs[j].cost);
                        assert(cost_weights(old_ccs)[m] == ccs[m].cost);
                    }
                    assert forall|j: int| m < j < i + 1 implies weight_le(
                        cost_weights(ccs)[m],
                        #[trigger] cost_weights(ccs)[j],
                    ) by {
                        if j < i {
                            assert(cost_weights(old_ccs)[j] == ccs[j].cost);
                            assert(cost_weights(old_ccs)[m] == ccs[m].cost);
                        }
                    }
                }
            }
            proof {
                assert(first_min(cost_weights(ccs), m));
            }
            i = i + 1;
        }
        proof {
            assert forall|k: int| 0 <= k < totals.len() implies #[trigger] totals[k] == weight_value(
                cost_weights(ccs)[k],
            ) by {
                assert(cost_weights(ccs)[k] == ccs[k].cost);
            }
            lemma_first_min_least(cost_weights(ccs), totals, m);
        }
        match out {
            Some(o) => o,
            None => {
                proof {
                    assert(false);
                }
                (DecisionTree { root: GoToLift { start, end: start }, children: Vec::new() }, DecisionCost::inf())
            },
        }
    }
}

} // verus!
