//! Flows on the edges of a graph whose nodes are numbered, built from
//! pairwise comparisons.
use vstd::prelude::*;

use crate::error::HodgeError;

verus! {

/// A graph on the nodes `0..n` with weighted edges `(i, j, w)`.
#[derive(Debug, Clone)]
pub struct WeightedGraph<W> {
    /// Number of nodes.
    pub n: usize,
    /// Edges: (source, target, weight).
    pub edges: Vec<(usize, usize, W)>,
}

/// A flow (disagreement values) on the edges of a graph: `values[k]` is the
/// signed flow on `graph.edges[k]`.
#[derive(Debug, Clone)]
pub struct EdgeFlow<W> {
    pub graph: WeightedGraph<W>,
    pub values: Vec<W>,
}

/// The position of the first edge from `a` to `b`, or `-1` when there is none.
pub open spec fn first_edge<W>(edges: Seq<(usize, usize, W)>, a: usize, b: usize) -> int
    decreases edges.len(),
{
    if edges.len() == 0 {
        -1
    } else if first_edge(edges.drop_last(), a, b) >= 0 {
        first_edge(edges.drop_last(), a, b)
    } else if edges.last().0 == a && edges.last().1 == b {
        edges.len() - 1
    } else {
        -1
    }
}

/// The edge that comparison `(i, j)` falls on: the pair ordered from the
/// smaller node to the larger.
pub open spec fn comparison_edge<W>(edges: Seq<(usize, usize, W)>, i: usize, j: usize) -> int {
    if i <= j { first_edge(edges, i, j) } else { first_edge(edges, j, i) }
}

/// Some edge runs from `a` to `b`.
pub open spec fn has_edge<W>(edges: Seq<(usize, usize, W)>, a: usize, b: usize) -> bool {
    exists|k: int| 0 <= k < edges.len() && (#[trigger] edges[k]).0 == a && edges[k].1 == b
}

/// The first edge from `a` to `b` is an edge that runs from `a` to `b`, with
/// no such edge before it; there is none exactly when no edge runs from `a`
/// to `b`.
pub proof fn lemma_first_edge_is_first_match<W>(edges: Seq<(usize, usize, W)>, a: usize, b: usize)
    ensures
        -1 <= first_edge(edges, a, b) < edges.len(),
        (first_edge(edges, a, b) == -1) <==> forall|k: int| 0 <= k < edges.len() ==> !((#[trigger] edges[k]).0 == a && edges[k].1 == b),
        (first_edge(edges, a, b) >= 0) <==> has_edge(edges, a, b),
        first_edge(edges, a, b) >= 0 ==> {
            let k = first_edge(edges, a, b);
            &&& edges[k].0 == a
            &&& edges[k].1 == b
            &&& forall|j: int| 0 <= j < k ==> !((#[trigger] edges[j]).0 == a && edges[j].1 == b)
        },
    decreases edges.len(),
{
    if edges.len() > 0 {
        let p = edges.drop_last();
        lemma_first_edge_is_first_match(p, a, b);
        assert forall|k: int| 0 <= k < p.len() implies #[trigger] p[k] == edges[k] by {}
        if first_edge(p, a, b) == -1 && !(edges.last().0 == a && edges.last().1 == b) {
            assert forall|k: int| 0 <= k < edges.len() implies !((#[trigger] edges[k]).0 == a && edges[k].1 == b) by {
                if k < p.len() {
                    assert(p[k] == edges[k]);
                }
            }
        }
        if first_edge(p, a, b) >= 0 {
            let k = first_edge(p, a, b);
            assert(edges[k] == p[k]);
            assert forall|j: int| 0 <= j < k implies !((#[trigger] edges[j]).0 == a && edges[j].1 == b) by {
                assert(p[j] == edges[j]);
            }
        }
        if first_edge(p, a, b) == -1 && edges.last().0 == a && edges.last().1 == b {
            assert forall|j: int| 0 <= j < edges.len() - 1 implies !((#[trigger] edges[j]).0 == a && edges[j].1 == b) by {
                assert(p[j] == edges[j]);
            }
        }
    }
}

/// The smaller of two nodes.
pub open spec fn low(i: usize, j: usize) -> usize {
    if i <= j { i } else { j }
}

/// The larger of two nodes.
pub open spec fn high(i: usize, j: usize) -> usize {
    if i <= j { j } else { i }
}

impl<W> EdgeFlow<W> {
    /// Create a new edge flow; the number of values must match the number of edges.
    pub fn new(graph: WeightedGraph<W>, values: Vec<W>) -> (r: Result<Self, HodgeError>)
        ensures
            match r {
                Ok(f) => {
                    &&& values@.len() == graph.edges@.len()
                    &&& f.graph == graph
                    &&& f.values == values
                },
                Err(e) => {
                    &&& values@.len() != graph.edges@.len()
                    &&& e == (HodgeError::FlowLengthMismatch {
                        flow_len: values@.len() as usize,
                        edge_count: graph.edges@.len() as usize,
                    })
                },
            },
    {
        if values.len() != graph.edges.len() {
            return Err(HodgeError::FlowLengthMismatch { flow_len: values.len(), edge_count: graph.edges.len() });
        }
        Ok(EdgeFlow { graph, values })
    }

    /// Where each comparison `(i, j, score)` lands: the first edge from the
    /// smaller of `i` and `j` to the larger, and whether the comparison runs
    /// along it (`i <= j`) or against it. Fails when some comparison has no
    /// such edge.
    pub fn comparison_slots(graph: &WeightedGraph<W>, comparisons: &[(usize, usize, W)]) -> (r: Result<
        Vec<(usize, bool)>,
        HodgeError,
    >)
        ensures
            r is Ok <==> forall|t: int| 0 <= t < comparisons@.len() ==>
                #[trigger] comparison_edge(graph.edges@, comparisons@[t].0, comparisons@[t].1) >= 0,
            r matches Ok(slots) ==> {
                &&& slots@.len() == comparisons@.len()
                &&& forall|t: int| 0 <= t < slots@.len() ==> {
                    &&& (#[trigger] slots@[t]).0 as int == comparison_edge(graph.edges@, comparisons@[t].0, comparisons@[t].1)
                    &&& slots@[t].1 == (comparisons@[t].0 <= comparisons@[t].1)
                }
            },
            r is Ok <==> forall|t: int| 0 <= t < comparisons@.len() ==>
                has_edge(graph.edges@, low(#[trigger] comparisons@[t].0, comparisons@[t].1), high(comparisons@[t].0, comparisons@[t].1)),
            r matches Ok(slots) ==> forall|t: int| 0 <= t < slots@.len() ==> {
                let k = (#[trigger] slots@[t]).0 as int;
                let (i, j) = (comparisons@[t].0, comparisons@[t].1);
                &&& k < graph.edges@.len()
                &&& graph.edges@[k].0 == low(i, j)
                &&& graph.edges@[k].1 == high(i, j)
                &&& forall|q: int| 0 <= q < k ==> !((#[trigger] graph.edges@[q]).0 == low(i, j) && graph.edges@[q].1 == high(i, j))
            },
            r matches Err(e) ==> e == (HodgeError::EdgeOutOfBounds {
                index: usize::MAX,
                num_edges: graph.edges@.len() as usize,
            }),
    {
        let mut slots: Vec<(usize, bool)> = Vec::new();
        let mut t: usize = 0;
        while t < comparisons.len()
            invariant
                t <= comparisons@.len(),
                slots@.len() == t,
                forall|q: int| 0 <= q < t ==> {
                    &&& #[trigger] comparison_edge(graph.edges@, comparisons@[q].0, comparisons@[q].1) >= 0
                    &&& slots@[q].0 as int == comparison_edge(graph.edges@, comparisons@[q].0, comparisons@[q].1)
                    &&& slots@[q].1 == (comparisons@[q].0 <= comparisons@[q].1)
                },
            decreases comparisons@.len() - t,
        {
            let i = comparisons[t].0;
            let j = comparisons[t].1;
            let (a, b) = if i <= j { (i, j) } else { (j, i) };
            assert(i == comparisons@[t as int].0 && j == comparisons@[t as int].1);
            match first_edge_of(&graph.edges, a, b) {
                Some(k) => {
                    assert(comparison_edge(graph.edges@, comparisons@[t as int].0, comparisons@[t as int].1) == k);
                    slots.push((k, i <= j));
                },
                None => {
                    assert(comparison_edge(graph.edges@, comparisons@[t as int].0, comparisons@[t as int].1) == -1);
                    proof {
                        lemma_first_edge_is_first_match(graph.edges@, a, b);
                        assert(a == low(i, j) && b == high(i, j));
                        assert(!has_edge(graph.edges@, low(comparisons@[t as int].0, comparisons@[t as int].1),
                            high(comparisons@[t as int].0, comparisons@[t as int].1)));
                    }
                    return Err(HodgeError::EdgeOutOfBounds { index: usize::MAX, num_edges: graph.edges.len() });
                },
            }
            t = t + 1;
        }
        assert(forall|q: int| 0 <= q < comparisons@.len() ==>
            #[trigger] comparison_edge(graph.edges@, comparisons@[q].0, comparisons@[q].1) >= 0);
        proof {
            assert forall|q: int| 0 <= q < slots@.len() implies {
                let k = (#[trigger] slots@[q]).0 as int;
                let (i, j) = (comparisons@[q].0, comparisons@[q].1);
                &&& k < graph.edges@.len()
                &&& graph.edges@[k].0 == low(i, j)
                &&& graph.edges@[k].1 == high(i, j)
                &&& forall|q2: int| 0 <= q2 < k ==> !((#[trigger] graph.edges@[q2]).0 == low(i, j) && graph.edges@[q2].1 == high(i, j))
            } by {
                let (i, j) = (comparisons@[q].0, comparisons@[q].1);
                lemma_first_edge_is_first_match(graph.edges@, low(i, j), high(i, j));
                assert(comparison_edge(graph.edges@, i, j) >= 0);
            }
            assert forall|q: int| 0 <= q < comparisons@.len() implies
                has_edge(graph.edges@, low(#[trigger] comparisons@[q].0, comparisons@[q].1), high(comparisons@[q].0, comparisons@[q].1)) by {
                let (i, j) = (comparisons@[q].0, comparisons@[q].1);
                lemma_first_edge_is_first_match(graph.edges@, low(i, j), high(i, j));
                assert(comparison_edge(graph.edges@, i, j) >= 0);
            }
        }
        Ok(slots)
    }
}

/// The position of the first edge from `a` to `b`.
fn first_edge_of<W>(edges: &Vec<(usize, usize, W)>, a: usize, b: usize) -> (r: Option<usize>)
    ensures
        match r {
            Some(k) => k as int == first_edge(edges@, a, b) && k < edges@.len(),
            None => first_edge(edges@, a, b) == -1,
        },
{
    let mut k: usize = 0;
    while k < edges.len()
        invariant
            k <= edges@.len(),
            first_edge(edges@.take(k as int), a, b) == -1,
        decreases edges@.len() - k,
    {
        assert(edges@.take(k + 1).drop_last() =~= edges@.take(k as int));
        if edges[k].0 == a && edges[k].1 == b {
            proof {
                lemma_first_edge_prefix(edges@, a, b, k + 1);
            }
            return Some(k);
        }
        k = k + 1;
    }
    assert(edges@.take(k as int) =~= edges@);
    None
}

/// Once an edge from `a` to `b` is found in a prefix, the whole sequence
/// gives the same first position.
proof fn lemma_first_edge_prefix<W>(edges: Seq<(usize, usize, W)>, a: usize, b: usize, len: int)
    requires
        0 <= len <= edges.len(),
        first_edge(edges.take(len), a, b) >= 0,
    ensures
        first_edge(edges, a, b) == first_edge(edges.take(len), a, b),
    decreases edges.len() - len,
{
    if len < edges.len() {
        assert(edges.take(len + 1).drop_last() =~= edges.take(len));
        lemma_first_edge_prefix(edges, a, b, len + 1);
    } else {
        assert(edges.take(len) =~= edges);
    }
}

} // verus!
