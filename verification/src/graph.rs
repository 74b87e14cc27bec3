//! Weighted graphs made of layers, paths through them, and Dijkstra's
//! shortest-path search.
use crate::keys::{
    key_node, key_of, lemma_node_key, lemma_node_key_injective, lemma_priority_order, node_key, node_of, priority_of,
    weight_of_priority, weight_priority,
};
use crate::pqueue::{pq_contents, pq_is_empty, pq_new, pq_pop, pq_push, NodeQueue};
use std::collections::HashMap;
use vstd::prelude::*;

verus! {

broadcast use vstd::std_specs::hash::group_hash_axioms;

/// A point of the map grid; `GraphNode(x, y)`.
#[derive(Clone, Copy, Debug, PartialEq, Eq, Hash, Structural)]
pub struct GraphNode(pub usize, pub usize);

/// Weight of an edge or length of a path: a whole number, or infinity.
/// Numbers are ordered as integers and lie below infinity.
#[derive(Clone, Copy, Debug, PartialEq, Eq, PartialOrd, Ord, Hash, Structural)]
pub enum GraphWeight {
    Finite(i32),
    Infinity,
}

/// `a < b` in the order of weights: every number is below infinity.
pub open spec fn weight_lt(a: GraphWeight, b: GraphWeight) -> bool {
    match (a, b) {
        (GraphWeight::Finite(x), GraphWeight::Finite(y)) => x < y,
        (GraphWeight::Finite(_), GraphWeight::Infinity) => true,
        (GraphWeight::Infinity, _) => false,
    }
}

/// `a <= b` in the order of weights.
pub open spec fn weight_le(a: GraphWeight, b: GraphWeight) -> bool {
    !weight_lt(b, a)
}

/// A weight that is infinite or a number that is not negative.
pub open spec fn weight_nonneg(w: GraphWeight) -> bool {
    match w {
        GraphWeight::Finite(x) => x >= 0,
        GraphWeight::Infinity => true,
    }
}

/// The sum of two weights as a mathematical value: `None` is infinity.
pub open spec fn ext_add(a: Option<int>, b: Option<int>) -> Option<int> {
    match (a, b) {
        (Some(x), Some(y)) => Some(x + y),
        _ => None,
    }
}

/// A weight as a mathematical value: `None` is infinity.
pub open spec fn weight_value(w: GraphWeight) -> Option<int> {
    match w {
        GraphWeight::Finite(x) => Some(x as int),
        GraphWeight::Infinity => None,
    }
}

/// The sum of two weights does not leave the range of `i32`.
pub open spec fn add_fits(a: GraphWeight, b: GraphWeight) -> bool {
    match ext_add(weight_value(a), weight_value(b)) {
        Some(v) => i32::MIN <= v <= i32::MAX,
        None => true,
    }
}

impl GraphWeight {
    pub fn is_finite(&self) -> (r: bool)
        ensures
            r == (*self is Finite),
    {
        match self {
            GraphWeight::Finite(_) => true,
            GraphWeight::Infinity => false,
        }
    }

    /// Sum of two weights; infinity absorbs every number.
    pub fn add(self, other: Self) -> (r: Self)
        requires
            add_fits(self, other),
        ensures
            weight_value(r) == ext_add(weight_value(self), weight_value(other)),
    {
        match self {
            GraphWeight::Finite(num) => match other {
                GraphWeight::Finite(other_num) => GraphWeight::Finite(num + other_num),
                GraphWeight::Infinity => GraphWeight::Infinity,
            },
            GraphWeight::Infinity => GraphWeight::Infinity,
        }
    }

    /// `self < other`: numbers are ordered as integers and every number is
    /// below infinity.
    pub fn lt(&self, other: &Self) -> (r: bool)
        ensures
            r == weight_lt(*self, *other),
    {
        match self {
            GraphWeight::Infinity => false,
            GraphWeight::Finite(s) => match other {
                GraphWeight::Infinity => true,
                GraphWeight::Finite(o) => *s < *o,
            },
        }
    }

    /// `self <= other` in the same order.
    pub fn le(&self, other: &Self) -> (r: bool)
        ensures
            r == weight_le(*self, *other),
    {
        !other.lt(self)
    }
}

/// The order of weights is total and transitive, and adding a weight that
/// is not negative never makes a weight smaller.
pub proof fn lemma_weight_order(a: GraphWeight, b: GraphWeight, c: GraphWeight)
    ensures
        weight_lt(a, b) || a == b || weight_lt(b, a),
        !(weight_lt(a, b) && weight_lt(b, a)),
        weight_lt(a, b) && weight_lt(b, c) ==> weight_lt(a, c),
        weight_le(a, b) && weight_le(b, c) ==> weight_le(a, c),
        weight_lt(a, b) && weight_le(b, c) ==> weight_lt(a, c),
        weight_le(a, b) && weight_lt(b, c) ==> weight_lt(a, c),
        weight_le(a, a),
{
}

/// Adding weights is commutative and associative, zero adds nothing, and
/// infinity absorbs every weight.
pub proof fn lemma_weight_add(a: Option<int>, b: Option<int>, c: Option<int>)
    ensures
        ext_add(a, b) == ext_add(b, a),
        ext_add(ext_add(a, b), c) == ext_add(a, ext_add(b, c)),
        ext_add(a, Some(0int)) == a,
        ext_add(a, None) is None,
{
}

/// What a layer of the graph is.
#[derive(Clone, Copy, Debug, PartialEq, Eq, Structural)]
pub enum GraphType {
    Terrain,
    Lift { start: GraphNode, end: GraphNode },
}

/// One layer of the graph, such as the terrain or a lift.
pub trait GraphLayer {
    /// The edges that leave `point` in this layer, with their weights.
    spec fn spec_children(&self, point: GraphNode) -> Seq<(GraphNode, GraphWeight)>;

    /// The kind of layer.
    spec fn spec_type(&self) -> GraphType;

    /// gets the type of Graph
    fn get_type(&self) -> (t: GraphType)
        ensures
            t == self.spec_type(),
    ;

    /// Gets nodes connected to a node on a graph
    fn get_children(&self, point: &GraphNode) -> (v: Vec<(GraphNode, GraphWeight)>)
        ensures
            v@ == self.spec_children(*point),
    ;

    /// gets weight connecting two points. If points are not connecte infinity is
    /// returned
    fn get_distance(&self, start_point: &GraphNode, end_point: &GraphNode) -> (w: GraphWeight)
        ensures
            w == weight_to(self.spec_children(*start_point), *end_point),
    {
        let children = self.get_children(start_point);
        let mut i: usize = 0;
        assert(children@.skip(0) =~= children@);
        while i < children.len()
            invariant
                i <= children@.len(),
                children@ == self.spec_children(*start_point),
                weight_to(children@, *end_point) == weight_to(children@.skip(i as int), *end_point),
            decreases children@.len() - i,
        {
            assert(children@.skip(i as int).drop_first() =~= children@.skip(i as int + 1));
            if children[i].0 == *end_point {
                return children[i].1;
            }
            i = i + 1;
        }
        assert(children@.skip(i as int).len() == 0);
        GraphWeight::Infinity
    }
}

/// The weight of the first of `edges` that leads to `b`, or infinity if
/// none does.
pub open spec fn weight_to(edges: Seq<(GraphNode, GraphWeight)>, b: GraphNode) -> GraphWeight
    decreases edges.len(),
{
    if edges.len() == 0 {
        GraphWeight::Infinity
    } else if edges[0].0 == b {
        edges[0].1
    } else {
        weight_to(edges.drop_first(), b)
    }
}

/// Some layer of `graph` has an edge from `a` to `b` of weight `w`.
pub open spec fn is_edge<L: GraphLayer>(graph: Seq<L>, a: GraphNode, b: GraphNode, w: GraphWeight) -> bool {
    exists|i: int, j: int|
        0 <= i < graph.len() && 0 <= j < graph[i].spec_children(a).len()
            && #[trigger] graph[i].spec_children(a)[j] == (b, w)
}

/// `q` is a route through `graph` from `a` to `b`: each entry is a node
/// and the weight of an edge of the graph from that node to the next
/// entry's node; the weight of the last entry is not an edge.
pub open spec fn is_route<L: GraphLayer>(
    graph: Seq<L>,
    q: Seq<(GraphNode, GraphWeight)>,
    a: GraphNode,
    b: GraphNode,
) -> bool {
    &&& q.len() >= 1
    &&& q[0].0 == a
    &&& q.last().0 == b
    &&& forall|k: int| 0 <= k < q.len() - 1 ==> is_edge(graph, #[trigger] q[k].0, q[k + 1].0, q[k].1)
}

/// The total weight of the edges of a route, `None` meaning infinity.
pub open spec fn route_cost(q: Seq<(GraphNode, GraphWeight)>) -> Option<int> {
    path_cost(q.drop_last())
}

/// `a <= b` for totals, `None` standing for infinity.
pub open spec fn at_most(a: Option<int>, b: Option<int>) -> bool {
    match (a, b) {
        (_, None) => true,
        (None, Some(_)) => false,
        (Some(x), Some(y)) => x <= y,
    }
}

/// Some route through `graph` leads from `a` to `b`.
pub open spec fn reachable<L: GraphLayer>(graph: Seq<L>, a: GraphNode, b: GraphNode) -> bool {
    exists|q: Seq<(GraphNode, GraphWeight)>| #[trigger] is_route(graph, q, a, b)
}

/// `nodes` is a finite set of nodes that no edge leaves, and every edge
/// that leaves one of them has an infinite weight or one in `0..=wmax`.
pub open spec fn bounded_region<L: GraphLayer>(graph: Seq<L>, nodes: Set<GraphNode>, wmax: int) -> bool {
    &&& nodes.finite()
    &&& wmax >= 0
    &&& forall|a: GraphNode, b: GraphNode, w: GraphWeight|
        nodes.contains(a) && #[trigger] is_edge(graph, a, b, w) ==> {
            &&& nodes.contains(b)
            &&& weight_nonneg(w)
            &&& (w matches GraphWeight::Finite(x) ==> x <= wmax)
        }
}

/// From `source` only finitely many nodes can be reached, and no edge
/// among them has a negative weight.
pub open spec fn searchable<L: GraphLayer>(graph: Seq<L>, source: GraphNode) -> bool {
    exists|nodes: Set<GraphNode>, wmax: int|
        #![trigger bounded_region(graph, nodes, wmax)]
        bounded_region(graph, nodes, wmax) && nodes.contains(source)
}

/// Each edge of finite weight `x` that leaves a node `u` which a route of
/// finite total leads to from `source` fits in `i32` when added to the
/// total of some route to `u`: the shortest distance to `u` plus `x` does
/// not leave `i32`.
pub open spec fn totals_fit<L: GraphLayer>(graph: Seq<L>, source: GraphNode) -> bool {
    forall|q: Seq<(GraphNode, GraphWeight)>, u: GraphNode, v: GraphNode, x: i32|
        #![trigger is_route(graph, q, source, u), is_edge(graph, u, v, GraphWeight::Finite(x))]
        is_route(graph, q, source, u) && is_edge(graph, u, v, GraphWeight::Finite(x))
            && route_cost(q) is Some ==> exists|q2: Seq<(GraphNode, GraphWeight)>|
            #[trigger] is_route(graph, q2, source, u) && (route_cost(q2) matches Some(c) && c + x
                <= i32::MAX)
}

/// A path: each entry is a node and the weight of the edge to the next node.
#[derive(Clone, Debug)]
pub struct Path {
    pub path: Vec<(GraphNode, GraphWeight)>,
}

/// Total weight of the entries of a path, `None` meaning infinity.
pub open spec fn path_cost(s: Seq<(GraphNode, GraphWeight)>) -> Option<int>
    decreases s.len(),
{
    if s.len() == 0 {
        Some(0)
    } else {
        ext_add(path_cost(s.drop_last()), weight_value(s.last().1))
    }
}

/// Every weight of the path is infinite or not negative, and the total of
/// each of its prefixes is at most `i32::MAX` where it is finite.
pub open spec fn cost_fits(s: Seq<(GraphNode, GraphWeight)>) -> bool {
    &&& forall|i: int| 0 <= i < s.len() ==> weight_nonneg(#[trigger] s[i].1)
    &&& forall|n: int|
        0 <= n <= s.len() ==> (#[trigger] path_cost(s.take(n)) matches Some(c) ==> c <= i32::MAX)
}

proof fn lemma_path_cost_prefix(s: Seq<(GraphNode, GraphWeight)>, n: int)
    requires
        0 <= n <= s.len(),
        forall|i: int| 0 <= i < s.len() ==> weight_nonneg(#[trigger] s[i].1),
    ensures
        path_cost(s.take(n)) matches Some(c) ==> (c >= 0 && (path_cost(s) matches Some(t) ==> c
            <= t)),
        path_cost(s.take(n)) is None ==> path_cost(s) is None,
    decreases s.len() - n,
{
    if n < s.len() {
        lemma_path_cost_prefix(s, n + 1);
        assert(s.take(n + 1).drop_last() =~= s.take(n));
        assert(s.take(n + 1).last() == s[n]);
        assert(weight_nonneg(s[n].1));
        lemma_path_cost_nonneg(s.take(n));
    } else {
        assert(s.take(n) =~= s);
        lemma_path_cost_nonneg(s);
    }
}

pub proof fn lemma_path_cost_nonneg(s: Seq<(GraphNode, GraphWeight)>)
    requires
        forall|i: int| 0 <= i < s.len() ==> weight_nonneg(#[trigger] s[i].1),
    ensures
        path_cost(s) matches Some(c) ==> c >= 0,
    decreases s.len(),
{
    if s.len() > 0 {
        lemma_path_cost_nonneg(s.drop_last());
        assert(weight_nonneg(s[s.len() - 1].1));
    }
}

/// The total of two paths put end to end is the sum of their totals.
pub proof fn lemma_path_cost_append(a: Seq<(GraphNode, GraphWeight)>, b: Seq<(GraphNode, GraphWeight)>)
    ensures
        path_cost(a + b) == ext_add(path_cost(a), path_cost(b)),
    decreases b.len(),
{
    if b.len() == 0 {
        assert(a + b =~= a);
        lemma_weight_add(path_cost(a), Some(0int), None);
    } else {
        lemma_path_cost_append(a, b.drop_last());
        assert((a + b).drop_last() =~= a + b.drop_last());
        assert((a + b).last() == b.last());
        lemma_weight_add(path_cost(a), path_cost(b.drop_last()), weight_value(b.last().1));
    }
}

impl Path {
    pub fn new(path: Vec<(GraphNode, GraphWeight)>) -> (r: Self)
        ensures
            r.path@ == path@,
    {
        Self { path }
    }

    /// The empty path.
    pub fn empty() -> (r: Self)
        ensures
            r.path@ == Seq::<(GraphNode, GraphWeight)>::empty(),
    {
        Path { path: Vec::new() }
    }

    /// The entries of `self` followed by those of `other`.
    pub fn append(self, other: &Self) -> (r: Self)
        ensures
            r.path@ == self.path@ + other.path@,
    {
        let mut path: Vec<(GraphNode, GraphWeight)> = Vec::new();
        let mut i: usize = 0;
        while i < self.path.len()
            invariant
                i <= self.path@.len(),
                path@ == self.path@.take(i as int),
            decreases self.path@.len() - i,
        {
            path.push(self.path[i]);
            i = i + 1;
            assert(path@ =~= self.path@.take(i as int));
        }
        assert(self.path@.take(i as int) =~= self.path@);
        let mut j: usize = 0;
        while j < other.path.len()
            invariant
                j <= other.path@.len(),
                path@ == self.path@ + other.path@.take(j as int),
            decreases other.path@.len() - j,
        {
            path.push(other.path[j]);
            j = j + 1;
            assert(path@ =~= self.path@ + other.path@.take(j as int));
        }
        assert(other.path@.take(j as int) =~= other.path@);
        Self { path }
    }

    pub fn len(&self) -> (n: usize)
        ensures
            n == self.path@.len(),
    {
        self.path.len()
    }

    pub fn is_empty(&self) -> (r: bool)
        ensures
            r == (self.path@.len() == 0),
    {
        self.len() == 0
    }

    /// The last node of the path, if it has one.
    pub fn endpoint(&self) -> (r: Option<&GraphNode>)
        ensures
            self.path@.len() == 0 ==> r is None,
            self.path@.len() > 0 ==> r == Some(&self.path@.last().0),
    {
        if !self.path.is_empty() {
            Some(&self.path[self.path.len() - 1].0)
        } else {
            None
        }
    }

    /// Sum of the weights of the path; infinite if one of them is.
    pub fn cost(&self) -> (c: GraphWeight)
        requires
            cost_fits(self.path@),
        ensures
            weight_value(c) == path_cost(self.path@),
    {
        let mut total = GraphWeight::Finite(0);
        let mut i: usize = 0;
        while i < self.path.len()
            invariant
                i <= self.path@.len(),
                cost_fits(self.path@),
                weight_value(total) == path_cost(self.path@.take(i as int)),
            decreases self.path@.len() - i,
        {
            proof {
                lemma_path_cost_prefix(self.path@, i as int + 1);
                assert(self.path@.take(i as int + 1).drop_last() =~= self.path@.take(i as int));
                assert(self.path@.take(i as int + 1).last() == self.path@[i as int]);
                assert(path_cost(self.path@.take(i as int + 1)) == ext_add(
                    path_cost(self.path@.take(i as int)),
                    weight_value(self.path@[i as int].1),
                ));
                lemma_path_cost_nonneg(self.path@.take(i as int + 1));
            }
            total = total.add(self.path[i].1);
            i = i + 1;
        }
        assert(self.path@.take(i as int) =~= self.path@);
        total
    }
}



/// The search has a distance for `n`.
spec fn known(dm: Map<u128, GraphWeight>, n: GraphNode) -> bool {
    dm.contains_key(node_key(n))
}

/// The distance the search holds for `n`.
spec fn dist(dm: Map<u128, GraphWeight>, n: GraphNode) -> GraphWeight {
    dm[node_key(n)]
}

/// Edge `j` of layer `i` leaving `a`.
spec fn layer_edge<L: GraphLayer>(graph: Seq<L>, a: GraphNode, i: int, j: int) -> (GraphNode, GraphWeight) {
    graph[i].spec_children(a)[j]
}

proof fn lemma_add_nonneg(a: GraphWeight, w: GraphWeight, t: GraphWeight)
    requires
        weight_nonneg(a),
        weight_nonneg(w),
        weight_value(t) == ext_add(weight_value(w), weight_value(a)),
    ensures
        weight_nonneg(t),
        weight_le(a, t),
{
}

/// The number a finite weight holds (zero for infinity).
pub open spec fn finite_part(w: GraphWeight) -> int {
    match w {
        GraphWeight::Finite(x) => x as int,
        GraphWeight::Infinity => 0,
    }
}

/// Every queued key stands for a node with a distance that has not been
/// taken from the queue yet, queued at the priority of its distance; and
/// every such node is queued.
#[verifier::opaque]
spec fn queue_ok(dm: Map<u128, GraphWeight>, qm: Map<u128, i64>, popped: Set<GraphNode>) -> bool {
    &&& forall|k: u128|
        #[trigger] qm.contains_key(k) ==> {
            &&& node_key(key_node(k)) == k
            &&& dm.contains_key(k)
            &&& !popped.contains(key_node(k))
            &&& qm[k] == weight_priority(dm[k])
        }
    &&& forall|n: GraphNode|
        #[trigger] known(dm, n) && !popped.contains(n) ==> qm.contains_key(node_key(n))
}

/// Distances are not negative, the source is at distance zero with no
/// predecessor, and every other node with a distance has a predecessor.
#[verifier::opaque]
spec fn dist_ok(
    dm: Map<u128, GraphWeight>,
    pm: Map<u128, (GraphNode, GraphWeight)>,
    source: GraphNode,
) -> bool {
    &&& forall|k: u128| #[trigger] dm.contains_key(k) ==> weight_nonneg(dm[k])
    &&& known(dm, source)
    &&& dist(dm, source) == GraphWeight::Finite(0)
    &&& !pm.contains_key(node_key(source))
    &&& forall|n: GraphNode| #[trigger] known(dm, n) ==> n == source || pm.contains_key(node_key(n))
}

/// The nodes taken from the queue have distances and are numbered in the
/// order they were taken.
#[verifier::opaque]
spec fn popped_ok(dm: Map<u128, GraphWeight>, popped: Set<GraphNode>, order: Map<GraphNode, nat>) -> bool {
    &&& popped.finite()
    &&& forall|n: GraphNode|
        #[trigger] popped.contains(n) ==> known(dm, n) && order.contains_key(n) && order[n]
            < popped.len()
}

/// The predecessor of a node was taken from the queue before it, joins it
/// by an edge, and its distance plus that edge's weight is the node's
/// distance.
#[verifier::opaque]
spec fn prev_ok<L: GraphLayer>(
    g: Seq<L>,
    dm: Map<u128, GraphWeight>,
    pm: Map<u128, (GraphNode, GraphWeight)>,
    popped: Set<GraphNode>,
    order: Map<GraphNode, nat>,
) -> bool {
    forall|n: GraphNode|
        #[trigger] pm.contains_key(node_key(n)) ==> {
            let (p, w) = pm[node_key(n)];
            &&& known(dm, n)
            &&& popped.contains(p)
            &&& is_edge(g, p, n, w)
            &&& weight_value(dist(dm, n)) == ext_add(weight_value(dist(dm, p)), weight_value(w))
            &&& (popped.contains(n) ==> order[p] < order[n])
        }
}

/// In every bounded region around the source lie all the nodes with a
/// distance, and no finite distance exceeds `count` times the region's
/// greatest weight.
#[verifier::opaque]
spec fn region_ok<L: GraphLayer>(g: Seq<L>, source: GraphNode, dm: Map<u128, GraphWeight>, count: nat) -> bool {
    forall|nodes: Set<GraphNode>, wmax: int|
        #[trigger] bounded_region(g, nodes, wmax) && nodes.contains(source) ==> {
            &&& forall|n: GraphNode| #[trigger] known(dm, n) ==> nodes.contains(n)
            &&& forall|n: GraphNode|
                #[trigger] known(dm, n) ==> finite_part(dist(dm, n)) <= count * wmax
        }
}

/// `b` has a distance no greater than `d` plus `w`.
spec fn relaxed(dm: Map<u128, GraphWeight>, b: GraphNode, w: GraphWeight, d: GraphWeight) -> bool {
    &&& known(dm, b)
    &&& at_most(weight_value(dist(dm, b)), ext_add(weight_value(w), weight_value(d)))
}

/// The edge `e` is relaxed from a node at distance `d`.
spec fn edge_relaxed(dm: Map<u128, GraphWeight>, e: (GraphNode, GraphWeight), d: GraphWeight) -> bool {
    relaxed(dm, e.0, e.1, d)
}

/// Every edge that leaves one of `done` leads to a node with a distance
/// no greater than the edge's start's distance plus the edge's weight.
#[verifier::opaque]
spec fn relax_ok<L: GraphLayer>(g: Seq<L>, dm: Map<u128, GraphWeight>, done: Set<GraphNode>) -> bool {
    forall|a: GraphNode, b: GraphNode, w: GraphWeight|
        #[trigger] done.contains(a) && #[trigger] is_edge(g, a, b, w) ==> relaxed(dm, b, w, dist(dm, a))
}

/// The distance of each of `done` is no greater than the total of any
/// route from the source to it.
#[verifier::opaque]
spec fn optimal_ok<L: GraphLayer>(
    g: Seq<L>,
    source: GraphNode,
    dm: Map<u128, GraphWeight>,
    done: Set<GraphNode>,
) -> bool {
    forall|n: GraphNode, q: Seq<(GraphNode, GraphWeight)>|
        #[trigger] done.contains(n) && #[trigger] is_route(g, q, source, n) ==> at_most(
            weight_value(dist(dm, n)),
            route_cost(q),
        )
}

/// Each node with a finite distance is reached from the source by a route
/// whose total is that distance.
#[verifier::opaque]
spec fn attained_ok<L: GraphLayer>(g: Seq<L>, source: GraphNode, dm: Map<u128, GraphWeight>) -> bool {
    forall|n: GraphNode|
        #[trigger] known(dm, n) && dist(dm, n) is Finite ==> exists|q: Seq<(GraphNode, GraphWeight)>|
            #[trigger] is_route(g, q, source, n) && route_cost(q) == weight_value(dist(dm, n))
}

/// The nodes taken from the queue are no farther than `last`, and the
/// queued ones no nearer.
#[verifier::opaque]
spec fn last_ok(dm: Map<u128, GraphWeight>, qm: Map<u128, i64>, popped: Set<GraphNode>, last: GraphWeight) -> bool {
    &&& forall|n: GraphNode| #[trigger] popped.contains(n) ==> weight_le(dist(dm, n), last)
    &&& forall|k: u128| #[trigger] qm.contains_key(k) ==> weight_le(last, dm[k])
}

/// The invariant of the search loop of `dijkstra`.
spec fn search_inv<L: GraphLayer>(
    g: Seq<L>,
    source: GraphNode,
    dm: Map<u128, GraphWeight>,
    pm: Map<u128, (GraphNode, GraphWeight)>,
    qm: Map<u128, i64>,
    popped: Set<GraphNode>,
    order: Map<GraphNode, nat>,
    last: GraphWeight,
) -> bool {
    &&& queue_ok(dm, qm, popped)
    &&& dist_ok(dm, pm, source)
    &&& popped_ok(dm, popped, order)
    &&& prev_ok(g, dm, pm, popped, order)
    &&& region_ok(g, source, dm, popped.len())
    &&& relax_ok(g, dm, popped)
    &&& optimal_ok(g, source, dm, popped)
    &&& attained_ok(g, source, dm)
    &&& last_ok(dm, qm, popped, last)
}

/// The invariant of the search while it expands the edges of `best`, the
/// node it has just taken from the queue; `before` are the nodes taken
/// earlier.
spec fn expand_inv<L: GraphLayer>(
    g: Seq<L>,
    source: GraphNode,
    dm: Map<u128, GraphWeight>,
    pm: Map<u128, (GraphNode, GraphWeight)>,
    qm: Map<u128, i64>,
    popped: Set<GraphNode>,
    order: Map<GraphNode, nat>,
    best: GraphNode,
    bd: GraphWeight,
    before: Set<GraphNode>,
) -> bool {
    &&& popped == before.insert(best)
    &&& !before.contains(best)
    &&& known(dm, best)
    &&& dist(dm, best) == bd
    &&& order.contains_key(best)
    &&& order[best] == before.len()
    &&& queue_ok(dm, qm, popped)
    &&& dist_ok(dm, pm, source)
    &&& popped_ok(dm, popped, order)
    &&& prev_ok(g, dm, pm, popped, order)
    &&& region_ok(g, source, dm, popped.len())
    &&& best_bound(g, source, bd, before.len())
    &&& relax_ok(g, dm, before)
    &&& optimal_ok(g, source, dm, popped)
    &&& attained_ok(g, source, dm)
    &&& last_ok(dm, qm, popped, bd)
}

/// In every bounded region around the source, `bd` is at most `count`
/// times the region's greatest weight.
#[verifier::opaque]
spec fn best_bound<L: GraphLayer>(g: Seq<L>, source: GraphNode, bd: GraphWeight, count: nat) -> bool {
    forall|nodes: Set<GraphNode>, wmax: int|
        #[trigger] bounded_region(g, nodes, wmax) && nodes.contains(source) ==> finite_part(bd)
            <= count * wmax
}

proof fn lemma_update_queue(
    dm: Map<u128, GraphWeight>,
    qm: Map<u128, i64>,
    popped: Set<GraphNode>,
    child: GraphNode,
    total: GraphWeight,
)
    requires
        queue_ok(dm, qm, popped),
        !popped.contains(child),
    ensures
        queue_ok(
            dm.insert(node_key(child), total),
            qm.insert(node_key(child), weight_priority(total)),
            popped,
        ),
{
    reveal(queue_ok);
    let ck = node_key(child);
    let dm2 = dm.insert(ck, total);
    let qm2 = qm.insert(ck, weight_priority(total));
    lemma_node_key(child);
    assert forall|k: u128| #[trigger] qm2.contains_key(k) implies {
        &&& node_key(key_node(k)) == k
        &&& dm2.contains_key(k)
        &&& !popped.contains(key_node(k))
        &&& qm2[k] == weight_priority(dm2[k])
    } by {
        if k != ck {
            assert(qm.contains_key(k));
        }
    }
    assert forall|n: GraphNode| #[trigger] known(dm2, n) && !popped.contains(n) implies qm2.contains_key(
        node_key(n),
    ) by {
        lemma_node_key_injective(n, child);
        if n != child {
            assert(known(dm, n));
        }
    }
}

proof fn lemma_update_dist(
    dm: Map<u128, GraphWeight>,
    pm: Map<u128, (GraphNode, GraphWeight)>,
    source: GraphNode,
    child: GraphNode,
    entry: (GraphNode, GraphWeight),
    total: GraphWeight,
)
    requires
        dist_ok(dm, pm, source),
        child != source,
        weight_nonneg(total),
    ensures
        dist_ok(dm.insert(node_key(child), total), pm.insert(node_key(child), entry), source),
{
    reveal(dist_ok);
    lemma_node_key_injective(source, child);
    let dm2 = dm.insert(node_key(child), total);
    let pm2 = pm.insert(node_key(child), entry);
    assert forall|n: GraphNode| #[trigger] known(dm2, n) implies n == source || pm2.contains_key(
        node_key(n),
    ) by {
        lemma_node_key_injective(n, child);
        if n != child {
            assert(known(dm, n));
        }
    }
}

proof fn lemma_update_popped(
    dm: Map<u128, GraphWeight>,
    popped: Set<GraphNode>,
    order: Map<GraphNode, nat>,
    child: GraphNode,
    total: GraphWeight,
)
    requires
        popped_ok(dm, popped, order),
    ensures
        popped_ok(dm.insert(node_key(child), total), popped, order),
{
    reveal(popped_ok);
}

proof fn lemma_update_prev<L: GraphLayer>(
    g: Seq<L>,
    dm: Map<u128, GraphWeight>,
    pm: Map<u128, (GraphNode, GraphWeight)>,
    popped: Set<GraphNode>,
    order: Map<GraphNode, nat>,
    best: GraphNode,
    bd: GraphWeight,
    child: GraphNode,
    w: GraphWeight,
    total: GraphWeight,
)
    requires
        prev_ok(g, dm, pm, popped, order),
        popped.contains(best),
        !popped.contains(child),
        known(dm, best),
        dist(dm, best) == bd,
        is_edge(g, best, child, w),
        weight_value(total) == ext_add(weight_value(w), weight_value(bd)),
    ensures
        prev_ok(
            g,
            dm.insert(node_key(child), total),
            pm.insert(node_key(child), (best, w)),
            popped,
            order,
        ),
{
    reveal(prev_ok);
    let ck = node_key(child);
    let dm2 = dm.insert(ck, total);
    let pm2 = pm.insert(ck, (best, w));
    lemma_node_key_injective(best, child);
    assert forall|n: GraphNode| #[trigger] pm2.contains_key(node_key(n)) implies {
        let (p, w2) = pm2[node_key(n)];
        &&& known(dm2, n)
        &&& popped.contains(p)
        &&& is_edge(g, p, n, w2)
        &&& weight_value(dist(dm2, n)) == ext_add(weight_value(dist(dm2, p)), weight_value(w2))
        &&& (popped.contains(n) ==> order[p] < order[n])
    } by {
        lemma_node_key_injective(n, child);
        if n != child {
            let (p, w2) = pm[node_key(n)];
            assert(pm.contains_key(node_key(n)));
            lemma_node_key_injective(p, child);
        }
    }
}

proof fn lemma_update_region<L: GraphLayer>(
    g: Seq<L>,
    source: GraphNode,
    dm: Map<u128, GraphWeight>,
    count: nat,
    best: GraphNode,
    bd: GraphWeight,
    before_len: nat,
    child: GraphNode,
    w: GraphWeight,
    total: GraphWeight,
)
    requires
        region_ok(g, source, dm, count),
        best_bound(g, source, bd, before_len),
        count == before_len + 1,
        known(dm, best),
        is_edge(g, best, child, w),
        weight_nonneg(bd),
        weight_value(total) == ext_add(weight_value(w), weight_value(bd)),
    ensures
        region_ok(g, source, dm.insert(node_key(child), total), count),
{
    reveal(region_ok);
    reveal(best_bound);
    let dm2 = dm.insert(node_key(child), total);
    assert forall|nodes: Set<GraphNode>, wmax: int|
        #[trigger] bounded_region(g, nodes, wmax) && nodes.contains(source) implies {
            &&& forall|n: GraphNode| #[trigger] known(dm2, n) ==> nodes.contains(n)
            &&& forall|n: GraphNode|
                #[trigger] known(dm2, n) ==> finite_part(dist(dm2, n)) <= count * wmax
        } by {
        assert(nodes.contains(best));
        assert(nodes.contains(child) && weight_nonneg(w));
        let t = finite_part(total);
        let x = finite_part(bd);
        let y = finite_part(w);
        assert(y <= wmax);
        assert(x <= before_len * wmax);
        assert(t <= x + y);
        assert(t <= count * wmax) by (nonlinear_arith)
            requires
                t <= x + y,
                y <= wmax,
                x <= before_len * wmax,
                count == before_len + 1,
        ;
        assert forall|n: GraphNode| #[trigger] known(dm2, n) implies nodes.contains(n) && finite_part(
            dist(dm2, n),
        ) <= count * wmax by {
            lemma_node_key_injective(n, child);
            if n != child {
                assert(known(dm, n));
            }
        }
    }
}

/// An edge that was relaxed stays so when a node gets a shorter distance.
proof fn lemma_relaxed_update(
    dm: Map<u128, GraphWeight>,
    child: GraphNode,
    total: GraphWeight,
    b: GraphNode,
    w: GraphWeight,
    d: GraphWeight,
)
    requires
        relaxed(dm, b, w, d),
        !known(dm, child) || weight_lt(total, dist(dm, child)),
    ensures
        relaxed(dm.insert(node_key(child), total), b, w, d),
{
    lemma_node_key_injective(b, child);
}

proof fn lemma_update_relax<L: GraphLayer>(
    g: Seq<L>,
    dm: Map<u128, GraphWeight>,
    done: Set<GraphNode>,
    child: GraphNode,
    total: GraphWeight,
)
    requires
        relax_ok(g, dm, done),
        !done.contains(child),
        !known(dm, child) || weight_lt(total, dist(dm, child)),
    ensures
        relax_ok(g, dm.insert(node_key(child), total), done),
{
    reveal(relax_ok);
    let dm2 = dm.insert(node_key(child), total);
    assert forall|a: GraphNode, b: GraphNode, w: GraphWeight|
        #[trigger] done.contains(a) && #[trigger] is_edge(g, a, b, w) implies relaxed(
        dm2,
        b,
        w,
        dist(dm2, a),
    ) by {
        lemma_node_key_injective(a, child);
        assert(dist(dm2, a) == dist(dm, a));
        lemma_relaxed_update(dm, child, total, b, w, dist(dm, a));
    }
}

proof fn lemma_update_optimal<L: GraphLayer>(
    g: Seq<L>,
    source: GraphNode,
    dm: Map<u128, GraphWeight>,
    done: Set<GraphNode>,
    child: GraphNode,
    total: GraphWeight,
)
    requires
        optimal_ok(g, source, dm, done),
        !done.contains(child),
    ensures
        optimal_ok(g, source, dm.insert(node_key(child), total), done),
{
    reveal(optimal_ok);
    let dm2 = dm.insert(node_key(child), total);
    assert forall|n: GraphNode, q: Seq<(GraphNode, GraphWeight)>|
        #[trigger] done.contains(n) && #[trigger] is_route(g, q, source, n) implies at_most(
        weight_value(dist(dm2, n)),
        route_cost(q),
    ) by {
        lemma_node_key_injective(n, child);
    }
}

/// A node that gets distance `total` from `best` over an edge of weight
/// `w` is reached by a route of that total: a route to `best` followed by
/// the edge.
proof fn lemma_update_attained<L: GraphLayer>(
    g: Seq<L>,
    source: GraphNode,
    dm: Map<u128, GraphWeight>,
    best: GraphNode,
    bd: GraphWeight,
    child: GraphNode,
    w: GraphWeight,
    total: GraphWeight,
)
    requires
        attained_ok(g, source, dm),
        known(dm, best),
        dist(dm, best) == bd,
        is_edge(g, best, child, w),
        weight_value(total) == ext_add(weight_value(w), weight_value(bd)),
    ensures
        attained_ok(g, source, dm.insert(node_key(child), total)),
{
    reveal(attained_ok);
    let dm2 = dm.insert(node_key(child), total);
    assert forall|n: GraphNode| #[trigger] known(dm2, n) && dist(dm2, n) is Finite implies exists|
        q: Seq<(GraphNode, GraphWeight)>,
    | #[trigger] is_route(g, q, source, n) && route_cost(q) == weight_value(dist(dm2, n)) by {
        lemma_node_key_injective(n, child);
        if n == child {
            assert(bd is Finite);
            let qb = choose|q: Seq<(GraphNode, GraphWeight)>| #[trigger]
                is_route(g, q, source, best) && route_cost(q) == weight_value(dist(dm, best));
            let head = qb.drop_last().push((best, w));
            let qc = head.push((child, GraphWeight::Finite(0)));
            assert(qc.drop_last() =~= head);
            assert(head.drop_last() =~= qb.drop_last());
            assert forall|k: int| 0 <= k < qc.len() - 1 implies is_edge(
                g,
                #[trigger] qc[k].0,
                qc[k + 1].0,
                qc[k].1,
            ) by {
                if k < qb.len() - 1 {
                    assert(qc[k] == qb[k]);
                    assert(is_edge(g, qb[k].0, qb[k + 1].0, qb[k].1));
                    if k + 1 < qb.len() - 1 {
                        assert(qc[k + 1] == qb[k + 1]);
                    } else {
                        assert(qb[k + 1].0 == qb.last().0);
                    }
                }
            }
            if qb.len() == 1 {
                assert(qb[0].0 == qb.last().0);
            } else {
                assert(qc[0] == qb[0]);
            }
            assert(is_route(g, qc, source, child));
        } else {
            assert(known(dm, n));
        }
    }
}

proof fn lemma_update_last(
    dm: Map<u128, GraphWeight>,
    qm: Map<u128, i64>,
    popped: Set<GraphNode>,
    bd: GraphWeight,
    child: GraphNode,
    total: GraphWeight,
)
    requires
        last_ok(dm, qm, popped, bd),
        !popped.contains(child),
        weight_le(bd, total),
    ensures
        last_ok(
            dm.insert(node_key(child), total),
            qm.insert(node_key(child), weight_priority(total)),
            popped,
            bd,
        ),
{
    reveal(last_ok);
    let dm2 = dm.insert(node_key(child), total);
    assert forall|n: GraphNode| #[trigger] popped.contains(n) implies weight_le(dist(dm2, n), bd) by {
        lemma_node_key_injective(n, child);
    }
}

/// Recording a shorter distance `total` for `child`, reached from `best`
/// over an edge of weight `w`, keeps the expansion invariant.
proof fn lemma_expand_update<L: GraphLayer>(
    g: Seq<L>,
    source: GraphNode,
    dm: Map<u128, GraphWeight>,
    pm: Map<u128, (GraphNode, GraphWeight)>,
    qm: Map<u128, i64>,
    popped: Set<GraphNode>,
    order: Map<GraphNode, nat>,
    best: GraphNode,
    bd: GraphWeight,
    before: Set<GraphNode>,
    child: GraphNode,
    w: GraphWeight,
    total: GraphWeight,
)
    requires
        expand_inv(g, source, dm, pm, qm, popped, order, best, bd, before),
        is_edge(g, best, child, w),
        weight_nonneg(w),
        weight_value(total) == ext_add(weight_value(w), weight_value(bd)),
        !known(dm, child) || weight_lt(total, dist(dm, child)),
    ensures
        expand_inv(
            g,
            source,
            dm.insert(node_key(child), total),
            pm.insert(node_key(child), (best, w)),
            qm.insert(node_key(child), weight_priority(total)),
            popped,
            order,
            best,
            bd,
            before,
        ),
{
    let ck = node_key(child);
    let dm2 = dm.insert(ck, total);
    assert(weight_nonneg(bd)) by {
        reveal(dist_ok);
    }
    lemma_add_nonneg(bd, w, total);
    if popped.contains(child) {
        reveal(last_ok);
        assert(weight_le(dist(dm, child), bd));
        reveal(popped_ok);
        assert(known(dm, child));
        assert(false);
    }
    assert(child != source) by {
        reveal(dist_ok);
        if child == source {
            assert(dist(dm, source) == GraphWeight::Finite(0));
        }
    }
    lemma_node_key_injective(best, child);
    lemma_update_queue(dm, qm, popped, child, total);
    lemma_update_dist(dm, pm, source, child, (best, w), total);
    lemma_update_popped(dm, popped, order, child, total);
    lemma_update_prev(g, dm, pm, popped, order, best, bd, child, w, total);
    assert(popped.len() == before.len() + 1) by {
        reveal(popped_ok);
        vstd::set_lib::lemma_len_subset(before, popped);
    }
    lemma_update_region(g, source, dm, popped.len(), best, bd, before.len(), child, w, total);
    lemma_update_relax(g, dm, before, child, total);
    lemma_update_optimal(g, source, dm, popped, child, total);
    lemma_update_attained(g, source, dm, best, bd, child, w, total);
    lemma_update_last(dm, qm, popped, bd, child, total);
}

/// Taking the node of greatest priority from the queue starts the
/// expansion of its edges.
proof fn lemma_begin_expand<L: GraphLayer>(
    g: Seq<L>,
    source: GraphNode,
    dm: Map<u128, GraphWeight>,
    pm: Map<u128, (GraphNode, GraphWeight)>,
    qm0: Map<u128, i64>,
    qm1: Map<u128, i64>,
    before: Set<GraphNode>,
    order: Map<GraphNode, nat>,
    last: GraphWeight,
    bk: u128,
    p: i64,
    nodes0: Set<GraphNode>,
    wmax0: int,
)
    requires
        search_inv(g, source, dm, pm, qm0, before, order, last),
        qm0.contains_key(bk),
        qm0[bk] == p,
        forall|k: u128| #[trigger] qm0.contains_key(k) ==> qm0[k] <= p,
        qm1 == qm0.remove(bk),
        bounded_region(g, nodes0, wmax0),
        nodes0.contains(source),
    ensures
        node_key(key_node(bk)) == bk,
        weight_nonneg(dm[bk]),
        weight_priority(dm[bk]) == p,
        !before.contains(key_node(bk)),
        expand_inv(
            g,
            source,
            dm,
            pm,
            qm1,
            before.insert(key_node(bk)),
            order.insert(key_node(bk), before.len()),
            key_node(bk),
            dm[bk],
            before,
        ),
{
    let best = key_node(bk);
    let bd = dm[bk];
    let popped = before.insert(best);
    let order2 = order.insert(best, before.len());
    reveal(queue_ok);
    reveal(dist_ok);
    reveal(popped_ok);
    assert(node_key(best) == bk);
    assert(!before.contains(best));
    assert(known(dm, best));
    assert(popped.len() == before.len() + 1);
    assert forall|k: u128| #[trigger] qm1.contains_key(k) implies {
        &&& node_key(key_node(k)) == k
        &&& dm.contains_key(k)
        &&& !popped.contains(key_node(k))
        &&& qm1[k] == weight_priority(dm[k])
    } by {
        assert(qm0.contains_key(k));
    }
    assert forall|n: GraphNode| #[trigger] known(dm, n) && !popped.contains(n) implies qm1.contains_key(
        node_key(n),
    ) by {
        lemma_node_key_injective(n, best);
        assert(qm0.contains_key(node_key(n)));
    }
    assert(queue_ok(dm, qm1, popped));
    assert forall|n: GraphNode| #[trigger] popped.contains(n) implies known(dm, n) && order2.contains_key(
        n,
    ) && order2[n] < popped.len() by {
        if n != best {
            assert(before.contains(n));
        }
    }
    assert(popped_ok(dm, popped, order2));
    assert(prev_ok(g, dm, pm, popped, order2)) by {
        reveal(prev_ok);
        assert forall|n: GraphNode| #[trigger] pm.contains_key(node_key(n)) implies {
            let (q, w) = pm[node_key(n)];
            &&& known(dm, n)
            &&& popped.contains(q)
            &&& is_edge(g, q, n, w)
            &&& weight_value(dist(dm, n)) == ext_add(weight_value(dist(dm, q)), weight_value(w))
            &&& (popped.contains(n) ==> order2[q] < order2[n])
        } by {
            let (q, w) = pm[node_key(n)];
            assert(before.contains(q));
            assert(order[q] < before.len());
        }
    }
    assert(region_ok(g, source, dm, popped.len()) && best_bound(g, source, bd, before.len())) by {
        reveal(region_ok);
        reveal(best_bound);
        assert forall|nodes: Set<GraphNode>, wmax: int|
            #[trigger] bounded_region(g, nodes, wmax) && nodes.contains(source) implies {
                &&& forall|n: GraphNode| #[trigger] known(dm, n) ==> nodes.contains(n)
                &&& forall|n: GraphNode|
                    #[trigger] known(dm, n) ==> finite_part(dist(dm, n)) <= popped.len() * wmax
            } by {
            assert forall|n: GraphNode| #[trigger] known(dm, n) implies finite_part(dist(dm, n))
                <= popped.len() * wmax by {
                assert(finite_part(dist(dm, n)) <= before.len() * wmax);
                assert(before.len() * wmax <= popped.len() * wmax) by (nonlinear_arith)
                    requires
                        wmax >= 0,
                        before.len() <= popped.len(),
                ;
            }
        }
        assert forall|nodes: Set<GraphNode>, wmax: int|
            #[trigger] bounded_region(g, nodes, wmax) && nodes.contains(source) implies finite_part(
            bd,
        ) <= before.len() * wmax by {
            assert(known(dm, best));
        }
    }
    assert(last_ok(dm, qm1, popped, bd)) by {
        reveal(last_ok);
        assert(weight_le(last, bd));
        assert forall|n: GraphNode| #[trigger] popped.contains(n) implies weight_le(dist(dm, n), bd) by {
            if n != best {
                assert(weight_le(dist(dm, n), last));
            }
        }
        assert forall|k: u128| #[trigger] qm1.contains_key(k) implies weight_le(bd, dm[k]) by {
            assert(qm0.contains_key(k));
            lemma_priority_order(dm[k], bd);
        }
    }
    lemma_best_optimal(g, source, dm, pm, qm0, before, order, last, bk, p, nodes0, wmax0);
    assert(optimal_ok(g, source, dm, popped)) by {
        reveal(optimal_ok);
        assert forall|n: GraphNode, q: Seq<(GraphNode, GraphWeight)>|
            #[trigger] popped.contains(n) && #[trigger] is_route(g, q, source, n) implies at_most(
            weight_value(dist(dm, n)),
            route_cost(q),
        ) by {
            if n != best {
                assert(before.contains(n));
            }
        }
    }
}

/// Along a route that starts in a bounded region, every node lies in the
/// region.
proof fn lemma_route_within<L: GraphLayer>(
    g: Seq<L>,
    nodes: Set<GraphNode>,
    wmax: int,
    q: Seq<(GraphNode, GraphWeight)>,
    k: int,
)
    requires
        bounded_region(g, nodes, wmax),
        q.len() >= 1,
        nodes.contains(q[0].0),
        forall|i: int| 0 <= i < q.len() - 1 ==> is_edge(g, #[trigger] q[i].0, q[i + 1].0, q[i].1),
        0 <= k < q.len(),
    ensures
        nodes.contains(q[k].0),
    decreases k,
{
    if k > 0 {
        lemma_route_within(g, nodes, wmax, q, k - 1);
        assert(is_edge(g, q[k - 1].0, q[(k - 1) + 1].0, q[k - 1].1));
    }
}

/// The edges of a route that starts in a bounded region have weights that
/// are not negative.
pub(crate) proof fn lemma_route_nonneg<L: GraphLayer>(
    g: Seq<L>,
    nodes: Set<GraphNode>,
    wmax: int,
    q: Seq<(GraphNode, GraphWeight)>,
)
    requires
        bounded_region(g, nodes, wmax),
        q.len() >= 1,
        nodes.contains(q[0].0),
        forall|i: int| 0 <= i < q.len() - 1 ==> is_edge(g, #[trigger] q[i].0, q[i + 1].0, q[i].1),
    ensures
        forall|i: int| 0 <= i < q.drop_last().len() ==> weight_nonneg(#[trigger] q.drop_last()[i].1),
{
    assert forall|i: int| 0 <= i < q.drop_last().len() implies weight_nonneg(#[trigger] q.drop_last()[i].1) by {
        lemma_route_within(g, nodes, wmax, q, i);
        assert(is_edge(g, q[i].0, q[i + 1].0, q[i].1));
    }
}

/// The first entry of `q`, from entry `i` on, whose node is not in `done`.
proof fn lemma_first_outside(q: Seq<(GraphNode, GraphWeight)>, done: Set<GraphNode>, i: int) -> (j: int)
    requires
        0 <= i < q.len(),
        !done.contains(q.last().0),
        forall|k: int| 0 <= k < i ==> done.contains(#[trigger] q[k].0),
    ensures
        i <= j < q.len(),
        !done.contains(q[j].0),
        forall|k: int| 0 <= k < j ==> done.contains(#[trigger] q[k].0),
    decreases q.len() - i,
{
    if !done.contains(q[i].0) {
        i
    } else {
        lemma_first_outside(q, done, i + 1)
    }
}

/// The node of greatest priority in the queue has a distance no greater
/// than the total of any route from the source to it.
proof fn lemma_best_optimal<L: GraphLayer>(
    g: Seq<L>,
    source: GraphNode,
    dm: Map<u128, GraphWeight>,
    pm: Map<u128, (GraphNode, GraphWeight)>,
    qm0: Map<u128, i64>,
    before: Set<GraphNode>,
    order: Map<GraphNode, nat>,
    last: GraphWeight,
    bk: u128,
    p: i64,
    nodes0: Set<GraphNode>,
    wmax0: int,
)
    requires
        search_inv(g, source, dm, pm, qm0, before, order, last),
        qm0.contains_key(bk),
        qm0[bk] == p,
        forall|k: u128| #[trigger] qm0.contains_key(k) ==> qm0[k] <= p,
        bounded_region(g, nodes0, wmax0),
        nodes0.contains(source),
    ensures
        forall|q: Seq<(GraphNode, GraphWeight)>|
            #[trigger] is_route(g, q, source, key_node(bk)) ==> at_most(weight_value(dm[bk]), route_cost(q)),
{
    let best = key_node(bk);
    reveal(queue_ok);
    reveal(dist_ok);
    assert(node_key(best) == bk);
    assert(!before.contains(best));
    assert forall|q: Seq<(GraphNode, GraphWeight)>| #[trigger] is_route(g, q, source, best) implies at_most(
        weight_value(dm[bk]),
        route_cost(q),
    ) by {
        let j = lemma_first_outside(q, before, 0);
        let v = q[j].0;
        let s = q.drop_last();
        lemma_route_nonneg(g, nodes0, wmax0, q);
        // the first node of the route outside `before` has a distance no
        // greater than the total of the route up to it
        if j == 0 {
            assert(v == source);
            assert(q.take(0).len() == 0);
            assert(path_cost(q.take(0)) == Some(0int));
        } else {
            let u = q[j - 1].0;
            assert(before.contains(u));
            assert(is_edge(g, q[j - 1].0, q[(j - 1) + 1].0, q[j - 1].1));
            assert(relaxed(dm, v, q[j - 1].1, dist(dm, u))) by {
                reveal(relax_ok);
            }
            let r = q.take(j);
            assert(is_route(g, r, source, u)) by {
                assert forall|k: int| 0 <= k < r.len() - 1 implies is_edge(
                    g,
                    #[trigger] r[k].0,
                    r[k + 1].0,
                    r[k].1,
                ) by {
                    assert(r[k] == q[k] && r[k + 1] == q[k + 1]);
                }
            }
            assert(at_most(weight_value(dist(dm, u)), route_cost(r))) by {
                reveal(optimal_ok);
            }
            assert(r.drop_last() =~= q.take(j - 1));
            assert(q.take(j).drop_last() =~= q.take(j - 1));
            assert(q.take(j).last() == q[j - 1]);
        }
        assert(known(dm, v));
        assert(at_most(weight_value(dist(dm, v)), path_cost(q.take(j))));
        // the queue holds `v`, so its distance is no smaller than the best
        assert(qm0.contains_key(node_key(v)));
        lemma_priority_order(dist(dm, v), dm[bk]);
        assert(weight_le(dm[bk], dist(dm, v)));
        // the rest of the route adds weights that are not negative
        assert(j <= s.len()) by {
            if j == q.len() - 1 {
            } else {
            }
        }
        if j == q.len() - 1 {
            assert(v == best);
        }
        lemma_path_cost_prefix(s, j);
        assert(s.take(j) =~= q.take(j));
    }
}

/// Once every edge of `best` has been expanded, the search invariant holds
/// again with `best` among the nodes taken from the queue.
proof fn lemma_end_expand<L: GraphLayer>(
    g: Seq<L>,
    source: GraphNode,
    dm: Map<u128, GraphWeight>,
    pm: Map<u128, (GraphNode, GraphWeight)>,
    qm: Map<u128, i64>,
    popped: Set<GraphNode>,
    order: Map<GraphNode, nat>,
    best: GraphNode,
    bd: GraphWeight,
    before: Set<GraphNode>,
)
    requires
        expand_inv(g, source, dm, pm, qm, popped, order, best, bd, before),
        forall|b: GraphNode, w: GraphWeight| #[trigger] is_edge(g, best, b, w) ==> relaxed(dm, b, w, bd),
    ensures
        search_inv(g, source, dm, pm, qm, popped, order, bd),
{
    reveal(relax_ok);
    assert forall|a: GraphNode, b: GraphNode, w: GraphWeight|
        #[trigger] popped.contains(a) && #[trigger] is_edge(g, a, b, w) implies relaxed(dm, b, w, dist(dm, a)) by {
        if a != best {
            assert(before.contains(a));
        }
    }
}

/// When the queue is empty, the nodes with a distance are exactly those
/// taken from the queue.
proof fn lemma_search_done<L: GraphLayer>(
    g: Seq<L>,
    source: GraphNode,
    dm: Map<u128, GraphWeight>,
    pm: Map<u128, (GraphNode, GraphWeight)>,
    qm: Map<u128, i64>,
    popped: Set<GraphNode>,
    order: Map<GraphNode, nat>,
    last: GraphWeight,
)
    requires
        search_inv(g, source, dm, pm, qm, popped, order, last),
        qm.dom() == Set::<u128>::empty(),
    ensures
        forall|n: GraphNode| #[trigger] known(dm, n) ==> popped.contains(n),
{
    reveal(queue_ok);
    assert forall|n: GraphNode| #[trigger] known(dm, n) implies popped.contains(n) by {
        if !popped.contains(n) {
            assert(qm.contains_key(node_key(n)));
            assert(qm.dom().contains(node_key(n)));
        }
    }
}

/// Facts that follow from the expansion invariant.
proof fn lemma_expand_facts<L: GraphLayer>(
    g: Seq<L>,
    source: GraphNode,
    dm: Map<u128, GraphWeight>,
    pm: Map<u128, (GraphNode, GraphWeight)>,
    qm: Map<u128, i64>,
    popped: Set<GraphNode>,
    order: Map<GraphNode, nat>,
    best: GraphNode,
    bd: GraphWeight,
    before: Set<GraphNode>,
)
    requires
        expand_inv(g, source, dm, pm, qm, popped, order, best, bd, before),
    ensures
        popped.finite(),
        before.finite(),
        popped.len() == before.len() + 1,
        weight_nonneg(bd),
{
    reveal(popped_ok);
    reveal(dist_ok);
    vstd::set_lib::lemma_len_subset(before, popped);
}

/// The search starts with the source alone, at distance zero.
proof fn lemma_search_start<L: GraphLayer>(
    g: Seq<L>,
    source: GraphNode,
    dm: Map<u128, GraphWeight>,
    pm: Map<u128, (GraphNode, GraphWeight)>,
    qm: Map<u128, i64>,
)
    requires
        dm == Map::<u128, GraphWeight>::empty().insert(node_key(source), GraphWeight::Finite(0)),
        pm == Map::<u128, (GraphNode, GraphWeight)>::empty(),
        qm == Map::<u128, i64>::empty().insert(
            node_key(source),
            weight_priority(GraphWeight::Finite(0)),
        ),
    ensures
        search_inv(
            g,
            source,
            dm,
            pm,
            qm,
            Set::empty(),
            Map::empty(),
            GraphWeight::Finite(0),
        ),
{
    lemma_node_key(source);
    assert(queue_ok(dm, qm, Set::empty())) by {
        reveal(queue_ok);
        assert forall|n: GraphNode| #[trigger] known(dm, n) && !Set::<GraphNode>::empty().contains(n)
            implies qm.contains_key(node_key(n)) by {
            lemma_node_key_injective(n, source);
        }
    }
    assert(dist_ok(dm, pm, source)) by {
        reveal(dist_ok);
        assert forall|n: GraphNode| #[trigger] known(dm, n) implies n == source || pm.contains_key(
            node_key(n),
        ) by {
            lemma_node_key_injective(n, source);
        }
    }
    assert(popped_ok(dm, Set::empty(), Map::empty())) by {
        reveal(popped_ok);
    }
    assert(prev_ok(g, dm, pm, Set::empty(), Map::empty())) by {
        reveal(prev_ok);
    }
    assert(region_ok(g, source, dm, 0)) by {
        reveal(region_ok);
        assert forall|nodes: Set<GraphNode>, wmax: int|
            #[trigger] bounded_region(g, nodes, wmax) && nodes.contains(source) implies {
                &&& forall|n: GraphNode| #[trigger] known(dm, n) ==> nodes.contains(n)
                &&& forall|n: GraphNode|
                    #[trigger] known(dm, n) ==> finite_part(dist(dm, n)) <= 0 * wmax
            } by {
            assert forall|n: GraphNode| #[trigger] known(dm, n) implies nodes.contains(n)
                && finite_part(dist(dm, n)) <= 0 * wmax by {
                lemma_node_key_injective(n, source);
            }
        }
    }
    assert(relax_ok(g, dm, Set::empty())) by {
        reveal(relax_ok);
    }
    assert(optimal_ok(g, source, dm, Set::empty())) by {
        reveal(optimal_ok);
    }
    assert(attained_ok(g, source, dm)) by {
        reveal(attained_ok);
        assert forall|n: GraphNode| #[trigger] known(dm, n) && dist(dm, n) is Finite implies exists|
            q: Seq<(GraphNode, GraphWeight)>,
        | #[trigger] is_route(g, q, source, n) && route_cost(q) == weight_value(dist(dm, n)) by {
            lemma_node_key_injective(n, source);
            let q = seq![(source, GraphWeight::Finite(0))];
            assert(q.drop_last() =~= Seq::<(GraphNode, GraphWeight)>::empty());
            assert(is_route(g, q, source, n));
        }
    }
    assert(last_ok(dm, qm, Set::empty(), GraphWeight::Finite(0))) by {
        reveal(last_ok);
    }
}

/// The nodes taken from the queue lie in every bounded region around the
/// source, so there are no more of them than the region has nodes.
proof fn lemma_popped_within<L: GraphLayer>(
    g: Seq<L>,
    source: GraphNode,
    dm: Map<u128, GraphWeight>,
    popped: Set<GraphNode>,
    order: Map<GraphNode, nat>,
    nodes: Set<GraphNode>,
    wmax: int,
)
    requires
        popped_ok(dm, popped, order),
        region_ok(g, source, dm, popped.len()),
        bounded_region(g, nodes, wmax),
        nodes.contains(source),
    ensures
        popped.len() <= nodes.len(),
{
    reveal(popped_ok);
    reveal(region_ok);
    assert forall|n: GraphNode| #[trigger] popped.contains(n) implies nodes.contains(n) by {
        assert(known(dm, n));
    }
    vstd::set_lib::lemma_len_subset(popped, nodes);
}

/// An edge leaving the node being expanded has a weight that is not
/// negative, and adding it to that node's distance stays within `i32`:
/// that distance is the shortest one, which some route attains.
proof fn lemma_step_fits<L: GraphLayer>(
    g: Seq<L>,
    source: GraphNode,
    dm: Map<u128, GraphWeight>,
    popped: Set<GraphNode>,
    best: GraphNode,
    bd: GraphWeight,
    nodes: Set<GraphNode>,
    wmax: int,
    child: GraphNode,
    w: GraphWeight,
)
    requires
        region_ok(g, source, dm, popped.len()),
        attained_ok(g, source, dm),
        optimal_ok(g, source, dm, popped),
        totals_fit(g, source),
        popped.contains(best),
        known(dm, best),
        dist(dm, best) == bd,
        weight_nonneg(bd),
        bounded_region(g, nodes, wmax),
        nodes.contains(source),
        is_edge(g, best, child, w),
    ensures
        weight_nonneg(w),
        add_fits(w, bd),
{
    reveal(region_ok);
    assert(nodes.contains(best));
    if let (GraphWeight::Finite(x), GraphWeight::Finite(b)) = (w, bd) {
        reveal(attained_ok);
        let q = choose|q: Seq<(GraphNode, GraphWeight)>| #[trigger]
            is_route(g, q, source, best) && route_cost(q) == weight_value(dist(dm, best));
        assert(is_route(g, q, source, best) && is_edge(g, best, child, GraphWeight::Finite(x)));
        let q2 = choose|q2: Seq<(GraphNode, GraphWeight)>| #[trigger]
            is_route(g, q2, source, best) && (route_cost(q2) matches Some(c) && c + x <= i32::MAX);
        assert(at_most(weight_value(dist(dm, best)), route_cost(q2))) by {
            reveal(optimal_ok);
        }
    }
}

/// Along a route, a set that no edge leaves keeps every node of the route
/// once it holds the first.
proof fn lemma_route_stays<L: GraphLayer>(
    g: Seq<L>,
    dm: Map<u128, GraphWeight>,
    done: Set<GraphNode>,
    q: Seq<(GraphNode, GraphWeight)>,
    k: int,
)
    requires
        relax_ok(g, dm, done),
        forall|n: GraphNode| #[trigger] known(dm, n) ==> done.contains(n),
        q.len() >= 1,
        forall|i: int| 0 <= i < q.len() - 1 ==> is_edge(g, #[trigger] q[i].0, q[i + 1].0, q[i].1),
        done.contains(q[0].0),
        0 <= k < q.len(),
    ensures
        done.contains(q[k].0),
    decreases k,
{
    if k > 0 {
        lemma_route_stays(g, dm, done, q, k - 1);
        assert(is_edge(g, q[k - 1].0, q[(k - 1) + 1].0, q[k - 1].1));
        reveal(relax_ok);
        assert(known(dm, q[k].0));
    }
}

/// The weight of the first `k` entries of a path whose distances grow by
/// each entry's weight is the distance of entry `k`.
proof fn lemma_prefix_cost(path: Seq<(GraphNode, GraphWeight)>, dm: Map<u128, GraphWeight>, k: int)
    requires
        0 <= k < path.len(),
        weight_value(dist(dm, path[0].0)) == Some(0int),
        forall|j: int|
            0 <= j < path.len() - 1 ==> weight_value(dist(dm, #[trigger] path[j + 1].0)) == ext_add(
                weight_value(dist(dm, path[j].0)),
                weight_value(path[j].1),
            ),
    ensures
        path_cost(path.take(k)) == weight_value(dist(dm, path[k].0)),
    decreases k,
{
    if k == 0 {
        assert(path.take(0).len() == 0);
    } else {
        lemma_prefix_cost(path, dm, k - 1);
        assert(path.take(k).drop_last() =~= path.take(k - 1));
        assert(path.take(k).last() == path[k - 1]);
        assert(weight_value(dist(dm, path[(k - 1) + 1].0)) == ext_add(
            weight_value(dist(dm, path[k - 1].0)),
            weight_value(path[k - 1].1),
        ));
    }
}

/// The weights and totals of the traced-back path.
proof fn lemma_dijkstra_costs<L: GraphLayer>(
    g: Seq<L>,
    source: GraphNode,
    destination: GraphNode,
    dm: Map<u128, GraphWeight>,
    popped: Set<GraphNode>,
    order: Map<GraphNode, nat>,
    path: Seq<(GraphNode, GraphWeight)>,
    nodes0: Set<GraphNode>,
    wmax0: int,
)
    requires
        popped_ok(dm, popped, order),
        region_ok(g, source, dm, popped.len()),
        forall|n: GraphNode| #[trigger] known(dm, n) ==> popped.contains(n),
        path.len() >= 1,
        path.last() == (destination, GraphWeight::Finite(0)),
        forall|k: int| 0 <= k < path.len() - 1 ==> is_edge(g, #[trigger] path[k].0, path[k + 1].0, path[k].1),
        path.len() > 1 ==> forall|k: int| 0 <= k < path.len() ==> known(dm, #[trigger] path[k].0),
        path.len() > 1 ==> forall|k: int|
            0 <= k < path.len() ==> path_cost(#[trigger] path.take(k)) == weight_value(
                dist(dm, path[k].0),
            ),
        path.len() > 1 ==> path_cost(path) == weight_value(dist(dm, destination)),
        path.len() == 1 ==> path_cost(path.take(0)) == Some(0int) && path_cost(path) == Some(0int),
        bounded_region(g, nodes0, wmax0),
        nodes0.contains(source),
    ensures
        cost_fits(path),
        forall|nodes: Set<GraphNode>, wmax: int|
            #[trigger] bounded_region(g, nodes, wmax) && nodes.contains(source) ==> (path_cost(path) matches Some(
                c,
            ) ==> c <= nodes.len() * wmax),
{
    reveal(popped_ok);
    reveal(region_ok);
    let m = path.len() as int;
    assert forall|nodes: Set<GraphNode>, wmax: int|
        #[trigger] bounded_region(g, nodes, wmax) && nodes.contains(source) implies forall|n: GraphNode|
        #[trigger] known(dm, n) ==> finite_part(dist(dm, n)) <= nodes.len() * wmax by {
        assert forall|n: GraphNode| #[trigger] popped.contains(n) implies nodes.contains(n) by {
            assert(known(dm, n));
        }
        vstd::set_lib::lemma_len_subset(popped, nodes);
        assert forall|n: GraphNode| #[trigger] known(dm, n) implies finite_part(dist(dm, n))
            <= nodes.len() * wmax by {
            assert(finite_part(dist(dm, n)) <= popped.len() * wmax);
            assert(popped.len() * wmax <= nodes.len() * wmax) by (nonlinear_arith)
                requires
                    popped.len() <= nodes.len(),
                    wmax >= 0,
            ;
        }
    }
    assert forall|i: int| 0 <= i < path.len() implies weight_nonneg(#[trigger] path[i].1) by {
        if i < m - 1 {
            assert(is_edge(g, path[i].0, path[i + 1].0, path[i].1));
            if m > 1 {
                assert(known(dm, path[i].0));
                assert(nodes0.contains(path[i].0));
            }
        } else {
            assert(path[i] == path.last());
        }
    }
    assert forall|n: int| 0 <= n <= path.len() implies (#[trigger] path_cost(path.take(n)) matches Some(c)
        ==> c <= i32::MAX) by {
        if m > 1 {
            if n < m {
                assert(known(dm, path[n].0));
            } else {
                assert(path.take(n) =~= path);
                assert(known(dm, path[m - 1].0));
                assert(path[m - 1].0 == destination);
            }
        } else {
            if n == 1 {
                assert(path.take(n) =~= path);
            }
        }
    }
    if m > 1 {
        assert(known(dm, path[m - 1].0));
    }
}

/// What the traced-back path of a finished search is.
proof fn lemma_dijkstra_result<L: GraphLayer>(
    g: Seq<L>,
    source: GraphNode,
    destination: GraphNode,
    dm: Map<u128, GraphWeight>,
    pm: Map<u128, (GraphNode, GraphWeight)>,
    qm: Map<u128, i64>,
    popped: Set<GraphNode>,
    order: Map<GraphNode, nat>,
    last: GraphWeight,
    rv: Seq<(GraphNode, GraphWeight)>,
    path: Seq<(GraphNode, GraphWeight)>,
    nodes0: Set<GraphNode>,
    wmax0: int,
)
    requires
        search_inv(g, source, dm, pm, qm, popped, order, last),
        forall|n: GraphNode| #[trigger] known(dm, n) ==> popped.contains(n),
        rv.len() >= 1,
        rv[0] == (destination, GraphWeight::Finite(0)),
        forall|i: int|
            1 <= i < rv.len() ==> pm.contains_key(node_key(#[trigger] rv[i - 1].0)) && pm[node_key(
                rv[i - 1].0,
            )] == rv[i],
        forall|i: int| 1 <= i < rv.len() ==> known(dm, #[trigger] rv[i].0),
        !pm.contains_key(node_key(rv.last().0)),
        path.len() == rv.len(),
        forall|j: int| 0 <= j < path.len() ==> path[j] == rv[rv.len() - 1 - j],
        bounded_region(g, nodes0, wmax0),
        nodes0.contains(source),
    ensures
        dijkstra_path(g, source, destination, path),
{
    let m = rv.len() as int;
    assert(path.last() == rv[0]);
    // each entry of the path joins its node to the next one
    assert forall|k: int| 0 <= k < path.len() - 1 implies is_edge(
        g,
        #[trigger] path[k].0,
        path[k + 1].0,
        path[k].1,
    ) by {
        reveal(prev_ok);
        let i = m - 1 - k;
        assert(path[k] == rv[i]);
        assert(path[k + 1] == rv[i - 1]);
        assert(pm.contains_key(node_key(rv[i - 1].0)));
    }
    // a path that is not a single node starts at the source
    if m > 1 {
        assert(path[0].0 == source) by {
            reveal(dist_ok);
            assert(known(dm, rv[m - 1].0));
            assert(path[0] == rv[m - 1]);
        }
    }
    // if the destination is reachable, it has a distance
    if reachable(g, source, destination) {
        assert(path[0].0 == source) by {
            reveal(dist_ok);
            let q = choose|q: Seq<(GraphNode, GraphWeight)>| #[trigger] is_route(g, q, source, destination);
            lemma_route_stays(g, dm, popped, q, q.len() - 1);
            reveal(popped_ok);
            if m == 1 {
                assert(known(dm, destination));
            }
        }
    }
    // distances along the path
    if m > 1 {
        assert forall|j: int| 0 <= j < path.len() - 1 implies weight_value(
            dist(dm, #[trigger] path[j + 1].0),
        ) == ext_add(weight_value(dist(dm, path[j].0)), weight_value(path[j].1)) by {
            reveal(prev_ok);
            let i = m - 1 - j;
            assert(path[j] == rv[i]);
            assert(path[j + 1] == rv[i - 1]);
            assert(pm.contains_key(node_key(rv[i - 1].0)));
        }
        assert forall|k: int| 0 <= k < path.len() implies known(dm, #[trigger] path[k].0) by {
            let i = m - 1 - k;
            assert(path[k] == rv[i]);
            if i == 0 {
                reveal(prev_ok);
                let one: int = 1;
                assert(pm.contains_key(node_key(rv[one - 1].0)));
                assert(known(dm, rv[0].0));
            }
        }
        assert(weight_value(dist(dm, path[0].0)) == Some(0int)) by {
            reveal(dist_ok);
        }
        assert forall|k: int| 0 <= k < path.len() implies path_cost(#[trigger] path.take(k))
            == weight_value(dist(dm, path[k].0)) by {
            lemma_prefix_cost(path, dm, k);
        }
        assert(path.take(m) =~= path);
        assert(path.take(m).drop_last() =~= path.take(m - 1));
        assert(path_cost(path.take(m - 1)) == weight_value(dist(dm, path[m - 1].0)));
    } else {
        assert(path.take(1).drop_last() =~= path.take(0));
        assert(path.take(1) =~= path);
    }
    lemma_dijkstra_costs(g, source, destination, dm, popped, order, path, nodes0, wmax0);
    // no route to the destination is shorter than the path
    assert forall|q: Seq<(GraphNode, GraphWeight)>| #[trigger] is_route(g, q, source, destination) implies at_most(
        path_cost(path),
        route_cost(q),
    ) by {
        assert(reachable(g, source, destination));
        assert(popped.contains(source)) by {
            reveal(dist_ok);
        }
        lemma_route_stays(g, dm, popped, q, q.len() - 1);
        assert(popped.contains(destination));
        assert(at_most(weight_value(dist(dm, destination)), route_cost(q))) by {
            reveal(optimal_ok);
        }
        if m == 1 {
            reveal(dist_ok);
            assert(path[0].0 == source);
        }
    }
}

/// What `dijkstra` hands back for a search from `source` to `destination`:
/// a path that ends at the destination with weight zero, in which each
/// entry's node is joined to the next entry's node by an edge of the
/// entry's weight; it starts at the source whenever it is longer than one
/// entry or the destination can be reached, so a single entry for a
/// destination other than the source means there is no way to it; no
/// route from the source to the destination has a smaller total, so the
/// path is a shortest one; its weights are not negative and its running
/// totals fit in `i32`, and no finite total exceeds the size of any
/// bounded region around the source times that region's greatest weight.
pub open spec fn dijkstra_path<L: GraphLayer>(
    g: Seq<L>,
    source: GraphNode,
    destination: GraphNode,
    path: Seq<(GraphNode, GraphWeight)>,
) -> bool {
    &&& path.len() >= 1
    &&& path.last() == (destination, GraphWeight::Finite(0))
    &&& forall|k: int|
        0 <= k < path.len() - 1 ==> is_edge(g, #[trigger] path[k].0, path[k + 1].0, path[k].1)
    &&& path.len() > 1 ==> path[0].0 == source
    &&& reachable(g, source, destination) ==> path[0].0 == source
    &&& forall|q: Seq<(GraphNode, GraphWeight)>|
        #[trigger] is_route(g, q, source, destination) ==> at_most(path_cost(path), route_cost(q))
    &&& cost_fits(path)
    &&& forall|nodes: Set<GraphNode>, wmax: int|
        #[trigger] bounded_region(g, nodes, wmax) && nodes.contains(source) ==> (path_cost(path) matches Some(
            c,
        ) ==> c <= nodes.len() * wmax)
}

/// Each weight of `s` is infinite or lies in `0..=wmax`, so a finite total
/// is at most `wmax` times the number of entries.
proof fn lemma_path_cost_le(s: Seq<(GraphNode, GraphWeight)>, wmax: int)
    requires
        wmax >= 0,
        forall|i: int|
            0 <= i < s.len() ==> weight_nonneg(#[trigger] s[i].1) && (s[i].1 matches GraphWeight::Finite(
                x,
            ) ==> x <= wmax),
    ensures
        path_cost(s) matches Some(c) ==> 0 <= c <= s.len() * wmax,
    decreases s.len(),
{
    if s.len() > 0 {
        lemma_path_cost_le(s.drop_last(), wmax);
        assert(s.last() == s[s.len() - 1]);
        assert((s.len() - 1) * wmax + wmax == s.len() * wmax) by (nonlinear_arith);
    }
}

/// The node of each entry of `q`.
spec fn route_nodes(q: Seq<(GraphNode, GraphWeight)>) -> Seq<GraphNode> {
    q.map_values(|e: (GraphNode, GraphWeight)| e.0)
}

/// Cutting out the loop of a route between two visits of the same node
/// leaves a shorter route between the same nodes whose total is no
/// greater.
proof fn lemma_cut_loop<L: GraphLayer>(
    g: Seq<L>,
    nodes: Set<GraphNode>,
    wmax: int,
    q: Seq<(GraphNode, GraphWeight)>,
    i: int,
    j: int,
) -> (r: Seq<(GraphNode, GraphWeight)>)
    requires
        bounded_region(g, nodes, wmax),
        q.len() >= 1,
        nodes.contains(q[0].0),
        forall|k: int| 0 <= k < q.len() - 1 ==> is_edge(g, #[trigger] q[k].0, q[k + 1].0, q[k].1),
        0 <= i < j < q.len(),
        q[i].0 == q[j].0,
    ensures
        1 <= r.len() < q.len(),
        r[0].0 == q[0].0,
        r.last().0 == q.last().0,
        forall|k: int| 0 <= k < r.len() - 1 ==> is_edge(g, #[trigger] r[k].0, r[k + 1].0, r[k].1),
        at_most(route_cost(r), route_cost(q)),
{
    let r = q.take(i) + q.skip(j);
    assert forall|k: int| 0 <= k < r.len() - 1 implies is_edge(g, #[trigger] r[k].0, r[k + 1].0, r[k].1) by {
        if k < i - 1 {
            assert(r[k] == q[k] && r[k + 1] == q[k + 1]);
        } else if k == i - 1 {
            assert(r[k] == q[k] && r[k + 1] == q[j]);
            assert(is_edge(g, q[k].0, q[k + 1].0, q[k].1));
        } else {
            assert(r[k] == q[j + k - i] && r[k + 1] == q[j + k - i + 1]);
            assert(is_edge(g, q[j + k - i].0, q[(j + k - i) + 1].0, q[j + k - i].1));
        }
    }
    if i == 0 {
        assert(r[0] == q[j]);
    } else {
        assert(r[0] == q[0]);
    }
    assert(r.last() == q.last());
    lemma_route_nonneg(g, nodes, wmax, q);
    lemma_cut_cost(q, i, j);
    r
}

/// What cutting a stretch out of a route whose weights are not negative
/// does to its total: it does not grow.
proof fn lemma_cut_cost(q: Seq<(GraphNode, GraphWeight)>, i: int, j: int)
    requires
        0 <= i < j < q.len(),
        forall|k: int| 0 <= k < q.drop_last().len() ==> weight_nonneg(#[trigger] q.drop_last()[k].1),
    ensures
        at_most(route_cost(q.take(i) + q.skip(j)), route_cost(q)),
{
    let r = q.take(i) + q.skip(j);
    let a = q.take(i);
    let m = q.subrange(i, j);
    let b = q.skip(j).drop_last();
    assert(r.drop_last() =~= a + b);
    assert(q.drop_last() =~= (a + m) + b);
    lemma_path_cost_append(a, b);
    lemma_path_cost_append(a + m, b);
    lemma_path_cost_append(a, m);
    assert forall|k: int| 0 <= k < m.len() implies weight_nonneg(#[trigger] m[k].1) by {
        assert(m[k] == q.drop_last()[i + k]);
    }
    lemma_path_cost_nonneg(m);
}

/// Between the ends of a route that starts in a bounded region, some route
/// visits no node twice, so it has no more entries than the region has
/// nodes, and its total is no greater.
proof fn lemma_simple_route<L: GraphLayer>(
    g: Seq<L>,
    nodes: Set<GraphNode>,
    wmax: int,
    q: Seq<(GraphNode, GraphWeight)>,
) -> (r: Seq<(GraphNode, GraphWeight)>)
    requires
        bounded_region(g, nodes, wmax),
        q.len() >= 1,
        nodes.contains(q[0].0),
        forall|k: int| 0 <= k < q.len() - 1 ==> is_edge(g, #[trigger] q[k].0, q[k + 1].0, q[k].1),
    ensures
        1 <= r.len() <= nodes.len(),
        r[0].0 == q[0].0,
        r.last().0 == q.last().0,
        forall|k: int| 0 <= k < r.len() - 1 ==> is_edge(g, #[trigger] r[k].0, r[k + 1].0, r[k].1),
        at_most(route_cost(r), route_cost(q)),
    decreases q.len(),
{
    let ns = route_nodes(q);
    if ns.no_duplicates() {
        ns.unique_seq_to_set();
        assert forall|n: GraphNode| ns.to_set().contains(n) implies nodes.contains(n) by {
            let k = choose|k: int| 0 <= k < ns.len() && ns[k] == n;
            lemma_route_within(g, nodes, wmax, q, k);
        }
        vstd::set_lib::lemma_len_subset(ns.to_set(), nodes);
        q
    } else {
        let (i, j) = choose|i: int, j: int| 0 <= i < ns.len() && 0 <= j < ns.len() && i != j && ns[i] == ns[j];
        let (lo, hi) = if i < j {
            (i, j)
        } else {
            (j, i)
        };
        assert(q[lo].0 == ns[lo] && q[hi].0 == ns[hi]);
        let r1 = lemma_cut_loop(g, nodes, wmax, q, lo, hi);
        let r = lemma_simple_route(g, nodes, wmax, r1);
        r
    }
}

/// In a bounded region around `s`, every route from `s` to `t` can be
/// traded for one that costs no more and whose finite total is at most the
/// region's size times its greatest weight.
pub proof fn lemma_short_route<L: GraphLayer>(
    g: Seq<L>,
    nodes: Set<GraphNode>,
    wmax: int,
    s: GraphNode,
    t: GraphNode,
    q: Seq<(GraphNode, GraphWeight)>,
) -> (r: Seq<(GraphNode, GraphWeight)>)
    requires
        bounded_region(g, nodes, wmax),
        nodes.contains(s),
        is_route(g, q, s, t),
    ensures
        is_route(g, r, s, t),
        at_most(route_cost(r), route_cost(q)),
        route_cost(r) matches Some(c) ==> 0 <= c <= nodes.len() * wmax,
{
    let r = lemma_simple_route(g, nodes, wmax, q);
    lemma_route_nonneg(g, nodes, wmax, r);
    assert forall|i: int| 0 <= i < r.drop_last().len() implies weight_nonneg(#[trigger] r.drop_last()[i].1)
        && (r.drop_last()[i].1 matches GraphWeight::Finite(y) ==> y <= wmax) by {
        lemma_route_within(g, nodes, wmax, r, i);
        assert(is_edge(g, r[i].0, r[i + 1].0, r[i].1));
    }
    lemma_path_cost_le(r.drop_last(), wmax);
    if route_cost(r) is Some {
        let c = route_cost(r)->0;
        assert(c <= nodes.len() * wmax) by (nonlinear_arith)
            requires
                c <= (r.len() - 1) * wmax,
                r.len() <= nodes.len(),
                wmax >= 0,
        ;
    }
    r
}

/// In a bounded region around the source whose size times its greatest
/// weight fits in `i32`, every total that a search from the source adds
/// up fits in `i32`.
pub proof fn lemma_bounded_totals_fit<L: GraphLayer>(
    g: Seq<L>,
    source: GraphNode,
    nodes: Set<GraphNode>,
    wmax: int,
)
    requires
        bounded_region(g, nodes, wmax),
        nodes.contains(source),
        nodes.len() * wmax <= i32::MAX,
    ensures
        totals_fit(g, source),
{
    assert forall|q: Seq<(GraphNode, GraphWeight)>, u: GraphNode, v: GraphNode, x: i32|
        is_route(g, q, source, u) && is_edge(g, u, v, GraphWeight::Finite(x)) && route_cost(q) is Some implies exists|
        q2: Seq<(GraphNode, GraphWeight)>,
    | #[trigger] is_route(g, q2, source, u) && (route_cost(q2) matches Some(c) && c + x <= i32::MAX) by {
        let r = lemma_simple_route(g, nodes, wmax, q);
        assert(is_route(g, r, source, u));
        lemma_route_within(g, nodes, wmax, r, r.len() - 1);
        assert(nodes.contains(u));
        lemma_route_nonneg(g, nodes, wmax, r);
        assert forall|i: int| 0 <= i < r.drop_last().len() implies weight_nonneg(#[trigger] r.drop_last()[i].1)
            && (r.drop_last()[i].1 matches GraphWeight::Finite(y) ==> y <= wmax) by {
            lemma_route_within(g, nodes, wmax, r, i);
            assert(is_edge(g, r[i].0, r[i + 1].0, r[i].1));
        }
        lemma_path_cost_le(r.drop_last(), wmax);
        let c = route_cost(r)->0;
        assert(c <= (r.len() - 1) * wmax);
        assert(x <= wmax);
        assert(c + x <= i32::MAX) by (nonlinear_arith)
            requires
                c <= (r.len() - 1) * wmax,
                x <= wmax,
                r.len() <= nodes.len(),
                nodes.len() * wmax <= i32::MAX,
                wmax >= 0,
        ;
    }
}

/// Implements Dijkstra's algorithm on a graph made of layers.
/// # Preconditions:
/// Graph weights are not negative, the search from `source` only meets
/// finitely many nodes, and no distance it adds up leaves `i32`.
pub fn dijkstra<L: GraphLayer>(source: &GraphNode, destination: &GraphNode, graph: &[L]) -> (r:
    Path)
    requires
        searchable(graph@, *source),
        totals_fit(graph@, *source),
    ensures
        dijkstra_path(graph@, *source, *destination, r.path@),
{
    let ghost g = graph@;
    let ghost (nodes0, wmax0) = choose|nodes: Set<GraphNode>, wmax: int|
        bounded_region(g, nodes, wmax) && nodes.contains(*source);
    //queue used to prioritize searching
    let mut queue = pq_new();
    //annotates previous node in shortest path tree.
    let mut previous: HashMap<u128, (GraphNode, GraphWeight)> = HashMap::new();
    //annotates the distance of the node from the source to a given node.
    let mut distance: HashMap<u128, GraphWeight> = HashMap::new();
    let source_key = key_of(source);
    pq_push(&mut queue, source_key, priority_of(GraphWeight::Finite(0)));
    distance.insert(source_key, GraphWeight::Finite(0));
    let ghost mut popped: Set<GraphNode> = Set::empty();
    let ghost mut order: Map<GraphNode, nat> = Map::empty();
    let ghost mut last: GraphWeight = GraphWeight::Finite(0);
    proof {
        lemma_search_start(g, *source, distance@, previous@, pq_contents(queue));
    }
    while !pq_is_empty(&queue)
        invariant
            g == graph@,
            bounded_region(g, nodes0, wmax0),
            nodes0.contains(*source),
            totals_fit(g, *source),
            search_inv(g, *source, distance@, previous@, pq_contents(queue), popped, order, last),
        decreases nodes0.len() - popped.len(),
    {
        let ghost qm0 = pq_contents(queue);
        let ghost old_popped = popped;
        let popped_pair = pq_pop(&mut queue);
        let (best_key, best_priority) = match popped_pair {
            Some(pair) => pair,
            None => {
                proof {
                    assert(false);
                }
                (0, 0)
            },
        };
        proof {
            lemma_begin_expand(
                g,
                *source,
                distance@,
                previous@,
                qm0,
                pq_contents(queue),
                old_popped,
                order,
                last,
                best_key,
                best_priority,
                nodes0,
                wmax0,
            );
        }
        let ghost best_node = key_node(best_key);
        let best_vertex = node_of(best_key, Ghost(best_node));
        let parent_distance = weight_of_priority(best_priority, Ghost(distance@[best_key]));
        proof {
            order = order.insert(best_vertex, old_popped.len());
            popped = old_popped.insert(best_vertex);
            lemma_popped_within(g, *source, distance@, popped, order, nodes0, wmax0);
        }
        //getting neighbors
        let mut i: usize = 0;
        while i < graph.len()
            invariant
                g == graph@,
                bounded_region(g, nodes0, wmax0),
                nodes0.contains(*source),
                totals_fit(g, *source),
                popped.len() <= nodes0.len(),
                expand_inv(
                    g,
                    *source,
                    distance@,
                    previous@,
                    pq_contents(queue),
                    popped,
                    order,
                    best_vertex,
                    parent_distance,
                    old_popped,
                ),
                forall|i2: int, j2: int|
                    0 <= i2 < i && 0 <= j2 < g[i2].spec_children(best_vertex).len() ==> edge_relaxed(
                        distance@,
                        #[trigger] layer_edge(g, best_vertex, i2, j2),
                        parent_distance,
                    ),
            decreases graph@.len() - i,
        {
            let children = graph[i].get_children(&best_vertex);
            let mut j: usize = 0;
            while j < children.len()
                invariant
                    g == graph@,
                    i < g.len(),
                    children@ == g[i as int].spec_children(best_vertex),
                    bounded_region(g, nodes0, wmax0),
                    nodes0.contains(*source),
                    totals_fit(g, *source),
                    popped.len() <= nodes0.len(),
                    expand_inv(
                        g,
                        *source,
                        distance@,
                        previous@,
                        pq_contents(queue),
                        popped,
                        order,
                        best_vertex,
                        parent_distance,
                        old_popped,
                    ),
                    forall|i2: int, j2: int|
                        (0 <= i2 < i && 0 <= j2 < g[i2].spec_children(best_vertex).len()) || (i2
                            == i && 0 <= j2 < j) ==> edge_relaxed(
                            distance@,
                            #[trigger] layer_edge(g, best_vertex, i2, j2),
                            parent_distance,
                        ),
                decreases children@.len() - j,
            {
                let (child, child_distance) = children[j];
                let ghost dm1 = distance@;
                proof {
                    assert(layer_edge(g, best_vertex, i as int, j as int) == (child, child_distance));
                    assert(is_edge(g, best_vertex, child, child_distance));
                    lemma_expand_facts(
                        g,
                        *source,
                        distance@,
                        previous@,
                        pq_contents(queue),
                        popped,
                        order,
                        best_vertex,
                        parent_distance,
                        old_popped,
                    );
                    lemma_step_fits(
                        g,
                        *source,
                        distance@,
                        popped,
                        best_vertex,
                        parent_distance,
                        nodes0,
                        wmax0,
                        child,
                        child_distance,
                    );
                }
                let total_distance = child_distance.add(parent_distance);
                let child_key = key_of(&child);
                let is_shortest_path = match distance.get(&child_key) {
                    Some(best_known_distance) => total_distance.lt(best_known_distance),
                    None => true,
                };
                if is_shortest_path {
                    proof {
                        lemma_add_nonneg(parent_distance, child_distance, total_distance);
                        lemma_expand_update(
                            g,
                            *source,
                            distance@,
                            previous@,
                            pq_contents(queue),
                            popped,
                            order,
                            best_vertex,
                            parent_distance,
                            old_popped,
                            child,
                            child_distance,
                            total_distance,
                        );
                    }
                    distance.insert(child_key, total_distance);
                    previous.insert(child_key, (best_vertex, child_distance));
                    pq_push(&mut queue, child_key, priority_of(total_distance));
                }
                proof {
                    assert forall|i2: int, j2: int|
                        (0 <= i2 < i && 0 <= j2 < g[i2].spec_children(best_vertex).len()) || (i2
                            == i && 0 <= j2 < j + 1) implies edge_relaxed(
                        distance@,
                        #[trigger] layer_edge(g, best_vertex, i2, j2),
                        parent_distance,
                    ) by {
                        let e = layer_edge(g, best_vertex, i2, j2);
                        if i2 == i && j2 == j {
                            if !is_shortest_path {
                                lemma_weight_order(total_distance, dist(dm1, child), total_distance);
                            }
                        } else {
                            assert(edge_relaxed(dm1, e, parent_distance));
                            if is_shortest_path {
                                lemma_relaxed_update(dm1, child, total_distance, e.0, e.1, parent_distance);
                            }
                        }
                    }
                }
                j = j + 1;
            }
            i = i + 1;
        }
        proof {
            assert forall|b: GraphNode, w: GraphWeight| #[trigger]
                is_edge(g, best_vertex, b, w) implies relaxed(distance@, b, w, parent_distance) by {
                let (i2, j2) = choose|i2: int, j2: int|
                    0 <= i2 < g.len() && 0 <= j2 < g[i2].spec_children(best_vertex).len()
                        && #[trigger] g[i2].spec_children(best_vertex)[j2] == (b, w);
                assert(layer_edge(g, best_vertex, i2, j2) == (b, w));
            }
            lemma_expand_facts(
                g,
                *source,
                distance@,
                previous@,
                pq_contents(queue),
                popped,
                order,
                best_vertex,
                parent_distance,
                old_popped,
            );
            lemma_end_expand(
                g,
                *source,
                distance@,
                previous@,
                pq_contents(queue),
                popped,
                order,
                best_vertex,
                parent_distance,
                old_popped,
            );
            last = parent_distance;
        }
    }
    proof {
        lemma_search_done(g, *source, distance@, previous@, pq_contents(queue), popped, order, last);
    }
    let ghost dm = distance@;
    let ghost pm = previous@;
    let mut reversed: Vec<(GraphNode, GraphWeight)> = Vec::new();
    let mut current = (*destination, GraphWeight::Finite(0));
    reversed.push(current);
    loop
        invariant_except_break
            reversed@.len() >= 1,
            reversed@[0] == (*destination, GraphWeight::Finite(0)),
            current == reversed@.last(),
            forall|i: int|
                1 <= i < reversed@.len() ==> pm.contains_key(node_key(#[trigger] reversed@[i - 1].0))
                    && pm[node_key(reversed@[i - 1].0)] == reversed@[i],
            forall|i: int| 1 <= i < reversed@.len() ==> known(dm, #[trigger] reversed@[i].0),
            dm == distance@,
            pm == previous@,
            search_inv(g, *source, dm, pm, pq_contents(queue), popped, order, last),
            forall|n: GraphNode| #[trigger] known(dm, n) ==> popped.contains(n),
        ensures
            reversed@.len() >= 1,
            reversed@[0] == (*destination, GraphWeight::Finite(0)),
            current == reversed@.last(),
            forall|i: int|
                1 <= i < reversed@.len() ==> pm.contains_key(node_key(#[trigger] reversed@[i - 1].0))
                    && pm[node_key(reversed@[i - 1].0)] == reversed@[i],
            forall|i: int| 1 <= i < reversed@.len() ==> known(dm, #[trigger] reversed@[i].0),
            !pm.contains_key(node_key(current.0)),
        decreases (if known(dm, current.0) { order[current.0] + 1 } else { 0 }),
    {
        let current_key = key_of(&current.0);
        match previous.get(&current_key) {
            Some(entry) => {
                let (node, weight) = *entry;
                proof {
                    reveal(prev_ok);
                    reveal(popped_ok);
                    assert(pm.contains_key(node_key(current.0)));
                    assert(popped.contains(current.0));
                    assert(popped.contains(node));
                }
                reversed.push((node, weight));
                current = (node, weight);
            },
            None => {
                break ;
            },
        }
    }
    let ghost rv = reversed@;
    let ghost m = rv.len();
    let mut path: Vec<(GraphNode, GraphWeight)> = Vec::new();
    let mut idx: usize = reversed.len();
    while idx > 0
        invariant
            idx <= reversed@.len(),
            rv == reversed@,
            m == rv.len(),
            path@.len() == m - idx,
            forall|j: int| 0 <= j < path@.len() ==> path@[j] == rv[m - 1 - j],
        decreases idx,
    {
        idx = idx - 1;
        path.push(reversed[idx]);
    }
    proof {
        lemma_dijkstra_result(g, *source, *destination, dm, pm, pq_contents(queue), popped, order, last, rv, path@, nodes0, wmax0);
    }
    Path { path }
}


} // verus!
