//! Keys and priorities that stand for nodes and distances in the
//! hash maps and the priority queue of Dijkstra's search.
use crate::graph::{GraphNode, GraphWeight, weight_le, weight_nonneg};
use vstd::prelude::*;

verus! {

/// Base of the key of a node: the key of `GraphNode(x, y)` is
/// `x * KEY_BASE + y`.
pub const KEY_BASE: u128 = 0x1_0000_0000_0000_0000;

/// The number that stands for a node in the search's maps and queue.
pub open spec fn node_key(n: GraphNode) -> u128 {
    (n.0 as int * KEY_BASE as int + n.1 as int) as u128
}

/// The node that a key stands for.
pub open spec fn key_node(k: u128) -> GraphNode {
    GraphNode((k as int / KEY_BASE as int) as usize, (k as int % KEY_BASE as int) as usize)
}

pub proof fn lemma_node_key(n: GraphNode)
    ensures
        node_key(n) as int == n.0 as int * KEY_BASE as int + n.1 as int,
        key_node(node_key(n)) == n,
{
    let x = n.0 as int;
    let y = n.1 as int;
    let b = KEY_BASE as int;
    assert(0 <= x * b + y < 0x1_0000_0000_0000_0000_0000_0000_0000_0000) by (nonlinear_arith)
        requires
            0 <= x < b,
            0 <= y < b,
            b == 0x1_0000_0000_0000_0000,
    ;
    vstd::arithmetic::div_mod::lemma_fundamental_div_mod_converse(x * b + y, b, x, y);
}

/// Distinct nodes have distinct keys.
pub broadcast proof fn lemma_node_key_injective(a: GraphNode, b: GraphNode)
    ensures
        #[trigger] node_key(a) == #[trigger] node_key(b) ==> a == b,
{
    lemma_node_key(a);
    lemma_node_key(b);
}

pub(crate) fn key_of(n: &GraphNode) -> (k: u128)
    ensures
        k == node_key(*n),
{
    proof {
        lemma_node_key(*n);
    }
    let x = n.0 as u128;
    let y = n.1 as u128;
    assert(x * KEY_BASE + y < 0x1_0000_0000_0000_0000_0000_0000_0000_0000) by (nonlinear_arith)
        requires
            0 <= x < KEY_BASE,
            0 <= y < KEY_BASE,
            KEY_BASE == 0x1_0000_0000_0000_0000,
    ;
    x * KEY_BASE + y
}

pub(crate) fn node_of(k: u128, Ghost(n): Ghost<GraphNode>) -> (r: GraphNode)
    requires
        k == node_key(n),
    ensures
        r == n,
{
    proof {
        lemma_node_key(n);
    }
    GraphNode((k / KEY_BASE) as usize, (k % KEY_BASE) as usize)
}

/// The priority of a distance in the search's queue: the queue pops the
/// greatest priority, so shorter distances get greater priorities.
pub open spec fn weight_priority(w: GraphWeight) -> i64 {
    match w {
        GraphWeight::Finite(x) => (-(x as int)) as i64,
        GraphWeight::Infinity => i64::MIN,
    }
}

pub(crate) fn priority_of(w: GraphWeight) -> (p: i64)
    requires
        weight_nonneg(w),
    ensures
        p == weight_priority(w),
{
    match w {
        GraphWeight::Finite(x) => -(x as i64),
        GraphWeight::Infinity => i64::MIN,
    }
}

pub(crate) fn weight_of_priority(p: i64, Ghost(w): Ghost<GraphWeight>) -> (r: GraphWeight)
    requires
        weight_nonneg(w),
        p == weight_priority(w),
    ensures
        r == w,
{
    if p == i64::MIN {
        GraphWeight::Infinity
    } else {
        GraphWeight::Finite((-p) as i32)
    }
}

pub proof fn lemma_priority_order(a: GraphWeight, b: GraphWeight)
    requires
        weight_nonneg(a),
        weight_nonneg(b),
    ensures
        weight_priority(a) <= weight_priority(b) <==> weight_le(b, a),
{
}

} // verus!
