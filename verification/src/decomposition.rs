//! The combinatorial side of the Hodge decomposition: the adjacency lists of
//! an opinion graph, the simple cycles through each agent (the cycle space
//! onto which the curl component is projected), and the signed indicator of
//! a cycle on the edges.
use vstd::prelude::*;
use vstd::relations::{sorted_by, total_ordering};

use crate::graph::{OpinionGraph, last_position, lemma_last_position};

verus! {

/// The endpoints of a path's edges, in order: source, then target, edge by edge.
pub open spec fn endpoints(c: Seq<(usize, usize)>) -> Seq<usize>
    decreases c.len(),
{
    if c.len() == 0 {
        seq![]
    } else {
        endpoints(c.drop_last()) + seq![c.last().0, c.last().1]
    }
}

/// Two cycles count as the same cycle when they use the same endpoints the
/// same number of times, whatever the order.
pub open spec fn same_key(c1: Seq<(usize, usize)>, c2: Seq<(usize, usize)>) -> bool {
    endpoints(c1).to_multiset() == endpoints(c2).to_multiset()
}

/// `s` without the cycles that repeat the key of an earlier one: the first
/// cycle of each key stays, in its place.
pub open spec fn distinct_cycles(s: Seq<Seq<(usize, usize)>>) -> Seq<Seq<(usize, usize)>>
    decreases s.len(),
{
    if s.len() == 0 {
        seq![]
    } else {
        let d = distinct_cycles(s.drop_last());
        if exists|j: int| 0 <= j < s.len() - 1 && #[trigger] same_key(s[j], s.last()) {
            d
        } else {
            d.push(s.last())
        }
    }
}

/// The order `<=` on `usize`, as a relation.
pub open spec fn usize_leq() -> spec_fn(usize, usize) -> bool {
    |a: usize, b: usize| a <= b
}

/// The sequences held by a sequence of vectors.
pub open spec fn seqs_of<T>(v: Seq<Vec<T>>) -> Seq<Seq<T>> {
    v.map_values(|x: Vec<T>| x@)
}

/// Cycles enumerated by a depth-first search from `node`, with `path` the
/// edges walked from `start` so far and `in_path` the nodes entered on it:
/// nothing once the path is longer than `max_depth`, else what the search
/// finds along the out-edges of `node`, in order.
pub open spec fn dfs_node(
    adj: Seq<Seq<usize>>,
    start: usize,
    node: usize,
    path: Seq<(usize, usize)>,
    in_path: Seq<bool>,
    max_depth: nat,
) -> Seq<Seq<(usize, usize)>>
    decreases max_depth + 1 - path.len(), adj[node as int].len() + 1,
{
    if path.len() > max_depth {
        seq![]
    } else {
        dfs_edges(adj, start, node, path, in_path, max_depth, 0)
    }
}

/// The cycles found along the out-edges of `node` from the `i`-th on: an
/// edge back to `start` closes the current path into a cycle, recorded with
/// that closing edge; an edge to a node not yet on the path extends it.
pub open spec fn dfs_edges(
    adj: Seq<Seq<usize>>,
    start: usize,
    node: usize,
    path: Seq<(usize, usize)>,
    in_path: Seq<bool>,
    max_depth: nat,
    i: nat,
) -> Seq<Seq<(usize, usize)>>
    decreases max_depth + 1 - path.len(), adj[node as int].len() - i,
{
    if path.len() > max_depth || i >= adj[node as int].len() {
        seq![]
    } else {
        let next = adj[node as int][i as int];
        let here = if next == start {
            seq![path.push((node, start))]
        } else if 0 <= next < in_path.len() && !in_path[next as int] {
            dfs_node(adj, start, next, path.push((node, next)), in_path.update(next as int, true), max_depth)
        } else {
            seq![]
        };
        here + dfs_edges(adj, start, node, path, in_path, max_depth, i + 1)
    }
}

/// `c` is a simple directed cycle through `start` of at most `max_len`
/// edges: it leaves `start`, each edge is an edge of `adj` that leaves the
/// node where the previous one arrived, the last edge arrives back at
/// `start`, and no node is left twice.
pub open spec fn is_simple_cycle(adj: Seq<Seq<usize>>, start: usize, c: Seq<(usize, usize)>, max_len: nat) -> bool {
    &&& 0 < c.len() <= max_len
    &&& c[0].0 == start
    &&& forall|t: int| 0 <= t < c.len() ==> (#[trigger] c[t]).0 < adj.len() && adj[c[t].0 as int].contains(c[t].1)
    &&& forall|t: int| 0 <= t < c.len() - 1 ==> (#[trigger] c[t]).1 == c[t + 1].0
    &&& c.last().1 == start
    &&& forall|t1: int, t2: int| 0 <= t1 < t2 < c.len() ==> (#[trigger] c[t1]).0 != (#[trigger] c[t2]).0
}

/// What holds of the search's state: `path` is a walk from `start` to `node`
/// along edges of `adj` that enters no node twice and never enters `start`,
/// and `in_path` marks the nodes it entered.
pub open spec fn search_state(
    adj: Seq<Seq<usize>>,
    start: usize,
    node: usize,
    path: Seq<(usize, usize)>,
    in_path: Seq<bool>,
) -> bool {
    &&& node < adj.len()
    &&& in_path.len() == adj.len()
    &&& (path.len() == 0 ==> node == start)
    &&& (path.len() > 0 ==> path[0].0 == start && path.last().1 == node)
    &&& forall|t: int| 0 <= t < path.len() ==> (#[trigger] path[t]).0 < adj.len() && adj[path[t].0 as int].contains(path[t].1)
    &&& forall|t: int| 0 <= t < path.len() - 1 ==> (#[trigger] path[t]).1 == path[t + 1].0
    &&& forall|t: int| 0 <= t < path.len() ==> (#[trigger] path[t]).1 < in_path.len() && in_path[path[t].1 as int]
    &&& forall|t: int| 0 <= t < path.len() ==> (#[trigger] path[t]).1 != start
    &&& forall|t1: int, t2: int| 0 <= t1 < t2 < path.len() ==> (#[trigger] path[t1]).1 != (#[trigger] path[t2]).1
}

/// `in_path` marks exactly the nodes that `path` entered.
pub open spec fn marks_path(path: Seq<(usize, usize)>, in_path: Seq<bool>) -> bool {
    forall|x: int| 0 <= x < in_path.len() ==>
        (#[trigger] in_path[x] <==> exists|t: int| 0 <= t < path.len() && path[t].1 == x)
}

/// Closing a consistent state's path with the edge back to `start` gives a
/// simple cycle.
proof fn lemma_closed_path_simple(
    adj: Seq<Seq<usize>>,
    start: usize,
    node: usize,
    path: Seq<(usize, usize)>,
    in_path: Seq<bool>,
    max_depth: nat,
)
    requires
        search_state(adj, start, node, path, in_path),
        path.len() <= max_depth,
        adj[node as int].contains(start),
    ensures
        is_simple_cycle(adj, start, path.push((node, start)), max_depth + 1),
{
    let c = path.push((node, start));
    let len = path.len() as int;
    assert(c[0].0 == start) by {
        if len > 0 {
            assert(c[0] == path[0]);
        }
    }
    assert forall|t: int| 0 <= t < c.len() implies (#[trigger] c[t]).0 < adj.len() && adj[c[t].0 as int].contains(c[t].1) by {
        if t < len {
            assert(c[t] == path[t]);
        }
    }
    assert forall|t: int| 0 <= t < c.len() - 1 implies (#[trigger] c[t]).1 == c[t + 1].0 by {
        assert(c[t] == path[t]);
        if t < len - 1 {
            assert(c[t + 1] == path[t + 1]);
        }
    }
    assert forall|t1: int, t2: int| 0 <= t1 < t2 < c.len() implies (#[trigger] c[t1]).0 != (#[trigger] c[t2]).0 by {
        assert(c[t2].0 == path[t2 - 1].1) by {
            if t2 < len {
                assert(c[t2] == path[t2]);
                assert(path[t2 - 1].1 == path[t2].0);
            }
        }
        if t1 == 0 {
            assert(path[t2 - 1].1 != start);
        } else {
            assert(c[t1] == path[t1]);
            assert(path[t1 - 1].1 == path[t1].0);
            assert(path[t1 - 1].1 != path[t2 - 1].1);
        }
    }
}

/// Every cycle that the search reports from a consistent state is a simple
/// cycle of at most `max_depth + 1` edges.
pub proof fn lemma_dfs_node_sound(
    adj: Seq<Seq<usize>>,
    start: usize,
    node: usize,
    path: Seq<(usize, usize)>,
    in_path: Seq<bool>,
    max_depth: nat,
)
    requires
        adjacency_closed(adj),
        search_state(adj, start, node, path, in_path),
    ensures
        forall|k: int| 0 <= k < dfs_node(adj, start, node, path, in_path, max_depth).len()
            ==> is_simple_cycle(adj, start, #[trigger] dfs_node(adj, start, node, path, in_path, max_depth)[k], max_depth + 1),
    decreases max_depth + 1 - path.len(), adj[node as int].len() + 1,
{
    if path.len() <= max_depth {
        lemma_dfs_edges_sound(adj, start, node, path, in_path, max_depth, 0);
        assert(dfs_node(adj, start, node, path, in_path, max_depth) == dfs_edges(adj, start, node, path, in_path, max_depth, 0));
    }
}

/// Every cycle found along the out-edges of a consistent state is a simple cycle.
pub proof fn lemma_dfs_edges_sound(
    adj: Seq<Seq<usize>>,
    start: usize,
    node: usize,
    path: Seq<(usize, usize)>,
    in_path: Seq<bool>,
    max_depth: nat,
    i: nat,
)
    requires
        adjacency_closed(adj),
        search_state(adj, start, node, path, in_path),
    ensures
        forall|k: int| 0 <= k < dfs_edges(adj, start, node, path, in_path, max_depth, i).len()
            ==> is_simple_cycle(adj, start, #[trigger] dfs_edges(adj, start, node, path, in_path, max_depth, i)[k], max_depth + 1),
    decreases max_depth + 1 - path.len(), adj[node as int].len() - i,
{
    if !(path.len() > max_depth || i >= adj[node as int].len()) {
        let next = adj[node as int][i as int];
        assert(next < adj.len());
        assert(adj[node as int].contains(next));
        let rest = dfs_edges(adj, start, node, path, in_path, max_depth, i + 1);
        lemma_dfs_edges_sound(adj, start, node, path, in_path, max_depth, i + 1);
        let here = if next == start {
            seq![path.push((node, start))]
        } else if 0 <= next < in_path.len() && !in_path[next as int] {
            dfs_node(adj, start, next, path.push((node, next)), in_path.update(next as int, true), max_depth)
        } else {
            seq![]
        };
        if next == start {
            lemma_closed_path_simple(adj, start, node, path, in_path, max_depth);
        } else if 0 <= next < in_path.len() && !in_path[next as int] {
            let p2 = path.push((node, next));
            let ip2 = in_path.update(next as int, true);
            assert forall|t: int| 0 <= t < p2.len() implies (#[trigger] p2[t]).1 < ip2.len() && ip2[p2[t].1 as int] by {
                if t < path.len() {
                    assert(p2[t] == path[t]);
                }
            }
            assert forall|t: int| 0 <= t < p2.len() implies (#[trigger] p2[t]).1 != start by {
                if t < path.len() {
                    assert(p2[t] == path[t]);
                }
            }
            assert forall|t1: int, t2: int| 0 <= t1 < t2 < p2.len() implies (#[trigger] p2[t1]).1 != (#[trigger] p2[t2]).1 by {
                if t2 == path.len() {
                    assert(p2[t1] == path[t1]);
                    assert(in_path[path[t1].1 as int]);
                } else {
                    assert(p2[t1] == path[t1]);
                    assert(p2[t2] == path[t2]);
                }
            }
            assert forall|t: int| 0 <= t < p2.len() - 1 implies (#[trigger] p2[t]).1 == p2[t + 1].0 by {
                if t < path.len() - 1 {
                    assert(p2[t] == path[t]);
                    assert(p2[t + 1] == path[t + 1]);
                } else {
                    assert(p2[t] == path[t]);
                }
            }
            assert forall|t: int| 0 <= t < p2.len() implies (#[trigger] p2[t]).0 < adj.len() && adj[p2[t].0 as int].contains(p2[t].1) by {
                if t < path.len() {
                    assert(p2[t] == path[t]);
                }
            }
            assert(search_state(adj, start, next, p2, ip2));
            lemma_dfs_node_sound(adj, start, next, p2, ip2, max_depth);
        }
        let out = dfs_edges(adj, start, node, path, in_path, max_depth, i);
        assert(out == here + rest);
        assert forall|k: int| 0 <= k < out.len() implies is_simple_cycle(adj, start, #[trigger] out[k], max_depth + 1) by {
            if k < here.len() {
                assert(out[k] == here[k]);
            } else {
                assert(out[k] == rest[k - here.len()]);
            }
        }
    }
}

/// The cycles found along the out-edges from the `i`-th on include those
/// found along the `j`-th, for `j >= i`.
proof fn lemma_dfs_edges_includes(
    adj: Seq<Seq<usize>>,
    start: usize,
    node: usize,
    path: Seq<(usize, usize)>,
    in_path: Seq<bool>,
    max_depth: nat,
    i: nat,
    j: nat,
    c: Seq<(usize, usize)>,
)
    requires
        i <= j,
        dfs_edges(adj, start, node, path, in_path, max_depth, j).contains(c),
    ensures
        dfs_edges(adj, start, node, path, in_path, max_depth, i).contains(c),
    decreases j - i,
{
    if i < j {
        lemma_dfs_edges_includes(adj, start, node, path, in_path, max_depth, i + 1, j, c);
        let rest = dfs_edges(adj, start, node, path, in_path, max_depth, i + 1);
        let all = dfs_edges(adj, start, node, path, in_path, max_depth, i);
        assert(!(path.len() > max_depth || i >= adj[node as int].len())) by {
            if path.len() > max_depth || (i + 1) >= adj[node as int].len() {
                assert(rest.len() == 0);
            }
        }
        let k = choose|k: int| 0 <= k < rest.len() && rest[k] == c;
        let here_len = all.len() - rest.len();
        assert(all[here_len + k] == c);
    }
}

/// The search finds every simple cycle through `start` of at most
/// `max_depth + 1` edges that extends its current path.
pub proof fn lemma_dfs_node_complete(
    adj: Seq<Seq<usize>>,
    start: usize,
    node: usize,
    path: Seq<(usize, usize)>,
    in_path: Seq<bool>,
    max_depth: nat,
    c: Seq<(usize, usize)>,
)
    requires
        adjacency_closed(adj),
        search_state(adj, start, node, path, in_path),
        marks_path(path, in_path),
        is_simple_cycle(adj, start, c, max_depth + 1),
        path.len() < c.len(),
        c.take(path.len() as int) == path,
    ensures
        dfs_node(adj, start, node, path, in_path, max_depth).contains(c),
    decreases max_depth + 1 - path.len(), 0nat,
{
    let len = path.len() as int;
    assert(path.len() <= max_depth);
    assert(dfs_node(adj, start, node, path, in_path, max_depth) == dfs_edges(adj, start, node, path, in_path, max_depth, 0));
    let step = c[len];
    assert(step.0 == node) by {
        if len > 0 {
            assert(c.take(len)[len - 1] == path[len - 1]);
            assert(c[len - 1].1 == c[len].0);
        }
    }
    let next = step.1;
    assert(step.0 < adj.len() && adj[step.0 as int].contains(next));
    let i = choose|i: int| 0 <= i < adj[node as int].len() && adj[node as int][i] == next;
    if len == c.len() - 1 {
        assert(next == start);
        assert(c =~= path.push((node, start))) by {
            assert forall|t: int| 0 <= t < len implies c[t] == path[t] by {
                assert(c.take(len)[t] == path[t]);
            }
        }
        let e = dfs_edges(adj, start, node, path, in_path, max_depth, i as nat);
        assert(e[0] == c);
        assert(e.contains(c));
        lemma_dfs_edges_includes(adj, start, node, path, in_path, max_depth, 0, i as nat, c);
    } else {
        assert(next == c[len + 1].0);
        assert(next != start) by {
            assert(c[0].0 != c[len + 1].0);
        }
        assert(next < adj.len());
        assert forall|t: int| 0 <= t < len implies c[t] == path[t] by {
            assert(c.take(len)[t] == path[t]);
        }
        assert(!in_path[next as int]) by {
            if in_path[next as int] {
                let t = choose|t: int| 0 <= t < path.len() && path[t].1 == next;
                assert(c[t].1 == c[t + 1].0);
                assert(c[t + 1].0 != c[len + 1].0);
            }
        }
        let p2 = path.push((node, next));
        let ip2 = in_path.update(next as int, true);
        assert(c.take(len + 1) =~= p2);
        assert forall|t: int| 0 <= t < p2.len() implies (#[trigger] p2[t]).1 < ip2.len() && ip2[p2[t].1 as int] by {
            if t < len {
                assert(p2[t] == path[t]);
            }
        }
        assert forall|t: int| 0 <= t < p2.len() implies (#[trigger] p2[t]).1 != start by {
            assert(p2[t] == c[t]);
            assert(c[t].1 == c[t + 1].0);
            assert(c[0].0 != c[t + 1].0);
        }
        assert forall|t1: int, t2: int| 0 <= t1 < t2 < p2.len() implies (#[trigger] p2[t1]).1 != (#[trigger] p2[t2]).1 by {
            assert(p2[t1] == c[t1]);
            assert(p2[t2] == c[t2]);
            assert(c[t1].1 == c[t1 + 1].0);
            assert(c[t2].1 == c[t2 + 1].0);
            assert(c[t1 + 1].0 != c[t2 + 1].0);
        }
        assert forall|t: int| 0 <= t < p2.len() - 1 implies (#[trigger] p2[t]).1 == p2[t + 1].0 by {
            assert(p2[t] == c[t]);
            assert(p2[t + 1] == c[t + 1]);
        }
        assert forall|t: int| 0 <= t < p2.len() implies (#[trigger] p2[t]).0 < adj.len() && adj[p2[t].0 as int].contains(p2[t].1) by {
            assert(p2[t] == c[t]);
        }
        assert(search_state(adj, start, next, p2, ip2));
        assert forall|x: int| 0 <= x < ip2.len() implies
            (#[trigger] ip2[x] <==> exists|t: int| 0 <= t < p2.len() && p2[t].1 == x) by {
            if x == next {
                assert(p2[len].1 == x);
            } else {
                if in_path[x] {
                    let t = choose|t: int| 0 <= t < path.len() && path[t].1 == x;
                    assert(p2[t].1 == x);
                }
                if exists|t: int| 0 <= t < p2.len() && p2[t].1 == x {
                    let t = choose|t: int| 0 <= t < p2.len() && p2[t].1 == x;
                    assert(t < len);
                    assert(path[t].1 == x);
                }
            }
        }
        lemma_dfs_node_complete(adj, start, next, p2, ip2, max_depth, c);
        let e = dfs_edges(adj, start, node, path, in_path, max_depth, i as nat);
        let found = dfs_node(adj, start, next, p2, ip2, max_depth);
        let k = choose|k: int| 0 <= k < found.len() && found[k] == c;
        assert(e[k] == c);
        assert(e.contains(c));
        lemma_dfs_edges_includes(adj, start, node, path, in_path, max_depth, 0, i as nat, c);
    }
}

/// Every cycle found from the starts `0..upto` is a simple cycle of at most
/// 9 edges through its first node.
pub proof fn lemma_cycles_from_starts_sound(adj: Seq<Seq<usize>>, upto: nat)
    requires
        adjacency_closed(adj),
        upto <= adj.len(),
    ensures
        forall|k: int| 0 <= k < cycles_from_starts(adj, upto).len() ==> {
            let c = #[trigger] cycles_from_starts(adj, upto)[k];
            is_simple_cycle(adj, c[0].0, c, 9)
        },
    decreases upto,
{
    if upto > 0 {
        let s = (upto - 1) as nat;
        let prev = cycles_from_starts(adj, s);
        let ip = Seq::new(adj.len(), |i: int| false);
        let found = dfs_node(adj, s as usize, s as usize, seq![], ip, 8);
        lemma_cycles_from_starts_sound(adj, s);
        assert(search_state(adj, s as usize, s as usize, seq![], ip));
        lemma_dfs_node_sound(adj, s as usize, s as usize, seq![], ip, 8);
        let all = cycles_from_starts(adj, upto);
        assert(all == prev + found);
        assert forall|k: int| 0 <= k < all.len() implies {
            let c = #[trigger] all[k];
            is_simple_cycle(adj, c[0].0, c, 9)
        } by {
            if k < prev.len() {
                assert(all[k] == prev[k]);
            } else {
                assert(all[k] == found[k - prev.len()]);
            }
        }
    }
}

/// Every cycle kept by `distinct_cycles` is one of the cycles it was given.
pub proof fn lemma_distinct_cycles_from(s: Seq<Seq<(usize, usize)>>)
    ensures
        forall|t: int| 0 <= t < distinct_cycles(s).len() ==> s.contains(#[trigger] distinct_cycles(s)[t]),
    decreases s.len(),
{
    if s.len() > 0 {
        let p = s.drop_last();
        lemma_distinct_cycles_from(p);
        let d = distinct_cycles(p);
        assert forall|t: int| 0 <= t < distinct_cycles(s).len() implies s.contains(#[trigger] distinct_cycles(s)[t]) by {
            if t < d.len() {
                assert(distinct_cycles(s)[t] == d[t]);
                let j = choose|j: int| 0 <= j < p.len() && p[j] == d[t];
                assert(s[j] == d[t]);
            } else {
                assert(distinct_cycles(s)[t] == s[s.len() - 1]);
            }
        }
    }
}

/// The search from the starts `0..upto` finds every simple cycle of at most
/// 8 edges whose start is below `upto` and that does not come back to its
/// start before its closing edge.

/// The search from the starts `0..upto` finds every simple cycle of at most
/// 9 edges whose start is below `upto`.
pub proof fn lemma_cycles_from_starts_complete(adj: Seq<Seq<usize>>, upto: nat, c: Seq<(usize, usize)>)
    requires
        adjacency_closed(adj),
        upto <= adj.len(),
        c.len() > 0,
        c[0].0 < upto,
        is_simple_cycle(adj, c[0].0, c, 9),
    ensures
        cycles_from_starts(adj, upto).contains(c),
    decreases upto,
{
    let s = (upto - 1) as nat;
    let prev = cycles_from_starts(adj, s);
    let ip = Seq::new(adj.len(), |i: int| false);
    let found = dfs_node(adj, s as usize, s as usize, seq![], ip, 8);
    let all = cycles_from_starts(adj, upto);
    assert(all == prev + found);
    if c[0].0 < s {
        lemma_cycles_from_starts_complete(adj, s, c);
        let k = choose|k: int| 0 <= k < prev.len() && prev[k] == c;
        assert(all[k] == c);
    } else {
        assert(search_state(adj, s as usize, s as usize, seq![], ip));
        assert(marks_path(seq![], ip));
        assert(c.take(0) =~= Seq::<(usize, usize)>::empty());
        lemma_dfs_node_complete(adj, s as usize, s as usize, seq![], ip, 8, c);
        let k = choose|k: int| 0 <= k < found.len() && found[k] == c;
        assert(all[prev.len() + k] == c);
    }
}

/// No two cycles kept by `distinct_cycles` have the same key.
pub proof fn lemma_distinct_cycles_distinct(s: Seq<Seq<(usize, usize)>>)
    ensures
        forall|t1: int, t2: int| 0 <= t1 < t2 < distinct_cycles(s).len() ==>
            !same_key(#[trigger] distinct_cycles(s)[t1], #[trigger] distinct_cycles(s)[t2]),
    decreases s.len(),
{
    if s.len() > 0 {
        let p = s.drop_last();
        let d = distinct_cycles(p);
        lemma_distinct_cycles_distinct(p);
        lemma_distinct_keys(p, s.last());
        let ds = distinct_cycles(s);
        assert forall|t1: int, t2: int| 0 <= t1 < t2 < ds.len() implies
            !same_key(#[trigger] ds[t1], #[trigger] ds[t2]) by {
            if t2 < d.len() {
                assert(ds[t1] == d[t1] && ds[t2] == d[t2]);
            } else {
                assert(ds == d.push(s.last()));
                assert(ds[t1] == d[t1]);
                assert(ds[t2] == s.last());
                if same_key(d[t1], s.last()) {
                    let j = choose|j: int| 0 <= j < p.len() && #[trigger] same_key(p[j], s.last());
                    assert(same_key(s[j], s.last()));
                }
            }
        }
    }
}

/// Every out-neighbour is a node of the graph.
pub open spec fn adjacency_closed(adj: Seq<Seq<usize>>) -> bool {
    forall|a: int, b: int| 0 <= a < adj.len() && 0 <= b < adj[a].len() ==> #[trigger] adj[a][b] < adj.len()
}

/// The out-neighbours of each of the nodes `0..n`: for node `i`, the targets of
/// the edges whose source is `i`, in edge order.
pub open spec fn out_lists(n: nat, ends: Seq<(usize, usize)>) -> Seq<Seq<usize>> {
    Seq::new(n, |i: int| ends.filter(|e: (usize, usize)| e.0 == i).map_values(|e: (usize, usize)| e.1))
}

/// Every endpoint is below `n`.
pub open spec fn ends_below(n: nat, ends: Seq<(usize, usize)>) -> bool {
    forall|k: int| 0 <= k < ends.len() ==> (#[trigger] ends[k]).0 < n && ends[k].1 < n
}

/// The cycles that the search finds from each of the starts `0..upto`, in
/// order of start, with paths of at most 8 edges and nothing on the path yet.
pub open spec fn cycles_from_starts(adj: Seq<Seq<usize>>, upto: nat) -> Seq<Seq<(usize, usize)>>
    decreases upto,
{
    if upto == 0 {
        seq![]
    } else {
        let s = (upto - 1) as nat;
        cycles_from_starts(adj, s)
            + dfs_node(adj, s as usize, s as usize, seq![], Seq::new(adj.len(), |i: int| false), 8)
    }
}

proof fn lemma_out_lists_push(n: nat, ends: Seq<(usize, usize)>, e: (usize, usize))
    requires
        e.0 < n,
    ensures
        out_lists(n, ends.push(e)) == out_lists(n, ends).update(e.0 as int, out_lists(n, ends)[e.0 as int].push(e.1)),
{
    let f = |x: (usize, usize)| x.1;
    assert forall|i: int| 0 <= i < n implies
        #[trigger] out_lists(n, ends.push(e))[i]
            == out_lists(n, ends).update(e.0 as int, out_lists(n, ends)[e.0 as int].push(e.1))[i] by {
        let p = |x: (usize, usize)| x.0 == i;
        reveal_with_fuel(Seq::filter, 1);
        assert(ends.push(e).drop_last() =~= ends);
        if e.0 == i {
            assert(ends.push(e).filter(p) == ends.filter(p).push(e));
            assert(ends.filter(p).push(e).map_values(f) =~= ends.filter(p).map_values(f).push(e.1));
        } else {
            assert(ends.push(e).filter(p) == ends.filter(p));
        }
    }
    assert(out_lists(n, ends.push(e)) =~= out_lists(n, ends).update(e.0 as int, out_lists(n, ends)[e.0 as int].push(e.1)));
}

/// The out-neighbour lists of the nodes `0..n` for the edges `ends`.
pub fn adjacency_lists(n: usize, ends: &Vec<(usize, usize)>) -> (adj: Vec<Vec<usize>>)
    requires
        ends_below(n as nat, ends@),
    ensures
        seqs_of(adj@) == out_lists(n as nat, ends@),
        adjacency_closed(seqs_of(adj@)),
{
    let mut adj: Vec<Vec<usize>> = Vec::new();
    let mut i: usize = 0;
    while i < n
        invariant
            i <= n,
            adj@.len() == i,
            forall|t: int| 0 <= t < i ==> (#[trigger] adj@[t])@.len() == 0,
        decreases n - i,
    {
        let empty: Vec<usize> = Vec::new();
        adj.push(empty);
        i = i + 1;
    }
    proof {
        reveal_with_fuel(Seq::filter, 1);
        let e0 = ends@.take(0);
        assert forall|t: int| 0 <= t < n implies #[trigger] seqs_of(adj@)[t] == out_lists(n as nat, e0)[t] by {
            assert(e0.filter(|e: (usize, usize)| e.0 == t) =~= Seq::<(usize, usize)>::empty());
            assert(adj@[t]@ =~= Seq::<usize>::empty());
            assert(out_lists(n as nat, e0)[t] =~= Seq::<usize>::empty());
        }
        assert(seqs_of(adj@) =~= out_lists(n as nat, e0));
    }
    let mut k: usize = 0;
    while k < ends.len()
        invariant
            k <= ends@.len(),
            ends_below(n as nat, ends@),
            seqs_of(adj@) == out_lists(n as nat, ends@.take(k as int)),
            adj@.len() == n,
        decreases ends@.len() - k,
    {
        let (a, b) = ends[k];
        let ghost before = seqs_of(adj@);
        proof {
            lemma_out_lists_push(n as nat, ends@.take(k as int), (a, b));
            assert(ends@.take(k as int).push((a, b)) =~= ends@.take(k + 1));
        }
        adj[a].push(b);
        assert(seqs_of(adj@) =~= before.update(a as int, before[a as int].push(b)));
        k = k + 1;
    }
    assert(ends@.take(k as int) =~= ends@);
    proof {
        let o = out_lists(n as nat, ends@);
        assert forall|x: int, y: int| 0 <= x < o.len() && 0 <= y < o[x].len() implies #[trigger] o[x][y] < o.len() by {
            let p = |e: (usize, usize)| e.0 == x;
            let fl = ends@.filter(p);
            assert(fl.contains(fl[y]));
            ends@.lemma_filter_contains_rev(p, fl[y]);
            let k = choose|k: int| 0 <= k < ends@.len() && ends@[k] == fl[y];
            assert(ends@[k].1 < n);
        }
    }
    adj
}

proof fn lemma_usize_leq_total()
    ensures
        total_ordering(usize_leq()),
{
}

/// A key holds a cycle's endpoints in ascending order.
proof fn lemma_keys_equal(k1: Seq<usize>, k2: Seq<usize>)
    requires
        sorted_by(k1, usize_leq()),
        sorted_by(k2, usize_leq()),
    ensures
        (k1 == k2) <==> (k1.to_multiset() == k2.to_multiset()),
{
    if k1.to_multiset() == k2.to_multiset() {
        lemma_usize_leq_total();
        vstd::seq_lib::lemma_sorted_unique(k1, k2, usize_leq());
    }
}

/// Whether some cycle of `d` has the key of `x`: the same answer as for the
/// whole sequence that `d` was taken from.
proof fn lemma_distinct_keys(s: Seq<Seq<(usize, usize)>>, x: Seq<(usize, usize)>)
    ensures
        (exists|j: int| 0 <= j < s.len() && #[trigger] same_key(s[j], x))
            <==> (exists|t: int| 0 <= t < distinct_cycles(s).len() && #[trigger] same_key(distinct_cycles(s)[t], x)),
    decreases s.len(),
{
    if s.len() > 0 {
        let p = s.drop_last();
        let d = distinct_cycles(p);
        lemma_distinct_keys(p, x);
        let ds = distinct_cycles(s);
        let dup = exists|j0: int| 0 <= j0 < s.len() - 1 && #[trigger] same_key(s[j0], s.last());
        assert(dup ==> ds == d);
        assert(!dup ==> ds == d.push(s.last()));
        assert(forall|t: int| 0 <= t < d.len() ==> ds[t] == d[t]);
        if exists|j: int| 0 <= j < s.len() && #[trigger] same_key(s[j], x) {
            let j = choose|j: int| 0 <= j < s.len() && #[trigger] same_key(s[j], x);
            if j < s.len() - 1 {
                assert(same_key(p[j], x));
                let t = choose|t: int| 0 <= t < d.len() && #[trigger] same_key(d[t], x);
                assert(same_key(ds[t], x));
            } else if dup {
                let j0 = choose|j0: int| 0 <= j0 < s.len() - 1 && #[trigger] same_key(s[j0], s.last());
                assert(same_key(p[j0], x));
                let t = choose|t: int| 0 <= t < d.len() && #[trigger] same_key(d[t], x);
                assert(same_key(ds[t], x));
            } else {
                assert(same_key(ds[d.len() as int], x));
            }
        }
        if exists|t: int| 0 <= t < distinct_cycles(s).len() && #[trigger] same_key(distinct_cycles(s)[t], x) {
            let t = choose|t: int| 0 <= t < distinct_cycles(s).len() && #[trigger] same_key(distinct_cycles(s)[t], x);
            if t < d.len() {
                assert(distinct_cycles(s)[t] == d[t]);
                let j = choose|j: int| 0 <= j < p.len() && #[trigger] same_key(p[j], x);
                assert(same_key(s[j], x));
            } else {
                assert(same_key(s[s.len() - 1], x));
            }
        }
    }
}

/// Inserting `x` where the elements before are at most `x` and the one after
/// is above it keeps a sequence sorted, and adds `x` to its elements.
proof fn lemma_insert_sorted(s: Seq<usize>, j: int, x: usize)
    requires
        sorted_by(s, usize_leq()),
        0 <= j <= s.len(),
        forall|t: int| 0 <= t < j ==> s[t] <= x,
        j < s.len() ==> x < s[j],
    ensures
        sorted_by(s.insert(j, x), usize_leq()),
        s.insert(j, x).to_multiset() == s.to_multiset().insert(x),
{
    let r = s.insert(j, x);
    assert(r.remove(j) =~= s);
    vstd::seq_lib::to_multiset_remove(r, j);
    assert(r[j] == x);
    assert(r.contains(x));
    r.to_multiset_ensures();
    assert(r.to_multiset() =~= s.to_multiset().insert(x));
    assert forall|a: int, b: int| 0 <= a < b < r.len() implies #[trigger] (usize_leq())(r[a], r[b]) by {
        if b < j {
            assert((usize_leq())(s[a], s[b]));
        } else if b == j {
        } else if a < j {
            assert((usize_leq())(s[a], s[b - 1]));
        } else if a == j {
            assert((usize_leq())(s[j], s[b - 1]));
        } else {
            assert((usize_leq())(s[a - 1], s[b - 1]));
        }
    }
}

/// `v` sorted into ascending order.
fn sorted_key(v: &Vec<usize>) -> (r: Vec<usize>)
    ensures
        sorted_by(r@, usize_leq()),
        r@.to_multiset() == v@.to_multiset(),
{
    broadcast use vstd::seq_lib::group_to_multiset_ensures;
    let mut r: Vec<usize> = Vec::new();
    let mut i: usize = 0;
    while i < v.len()
        invariant
            i <= v@.len(),
            sorted_by(r@, usize_leq()),
            r@.to_multiset() == v@.take(i as int).to_multiset(),
        decreases v@.len() - i,
    {
        let x = v[i];
        let mut j: usize = 0;
        while j < r.len() && r[j] <= x
            invariant
                j <= r@.len(),
                forall|t: int| 0 <= t < j ==> r@[t] <= x,
            decreases r@.len() - j,
        {
            j = j + 1;
        }
        let ghost old_r = r@;
        r.insert(j, x);
        proof {
            lemma_insert_sorted(old_r, j as int, x);
            assert(r@ == old_r.insert(j as int, x));
            assert(v@.take(i + 1) =~= v@.take(i as int).push(x));
            vstd::seq_lib::to_multiset_build(v@.take(i as int), x);
        }
        i = i + 1;
    }
    assert(v@.take(i as int) =~= v@);
    r
}

/// The sorted endpoints of a cycle: equal for two cycles exactly when they
/// have the same key.
fn cycle_key(c: &Vec<(usize, usize)>) -> (k: Vec<usize>)
    ensures
        sorted_by(k@, usize_leq()),
        k@.to_multiset() == endpoints(c@).to_multiset(),
{
    let mut flat: Vec<usize> = Vec::new();
    let mut i: usize = 0;
    while i < c.len()
        invariant
            i <= c@.len(),
            flat@ == endpoints(c@.take(i as int)),
        decreases c@.len() - i,
    {
        let (a, b) = c[i];
        flat.push(a);
        flat.push(b);
        assert(c@.take(i + 1).drop_last() =~= c@.take(i as int));
        assert(flat@ =~= endpoints(c@.take(i + 1)));
        i = i + 1;
    }
    assert(c@.take(i as int) =~= c@);
    sorted_key(&flat)
}

fn same_keys(a: &Vec<usize>, b: &Vec<usize>) -> (r: bool)
    ensures
        r == (a@ == b@),
{
    if a.len() != b.len() {
        return false;
    }
    let mut i: usize = 0;
    while i < a.len()
        invariant
            i <= a@.len(),
            a@.len() == b@.len(),
            forall|t: int| 0 <= t < i ==> a@[t] == b@[t],
        decreases a@.len() - i,
    {
        if a[i] != b[i] {
            return false;
        }
        i = i + 1;
    }
    assert(a@ =~= b@);
    true
}

/// Drops each cycle whose key repeats that of an earlier one.
fn dedup_cycles(cycles: &Vec<Vec<(usize, usize)>>) -> (unique: Vec<Vec<(usize, usize)>>)
    ensures
        seqs_of(unique@) == distinct_cycles(seqs_of(cycles@)),
{
    let ghost all = seqs_of(cycles@);
    let mut unique: Vec<Vec<(usize, usize)>> = Vec::new();
    let mut seen: Vec<Vec<usize>> = Vec::new();
    let mut i: usize = 0;
    while i < cycles.len()
        invariant
            i <= cycles@.len(),
            all == seqs_of(cycles@),
            seqs_of(unique@) == distinct_cycles(all.take(i as int)),
            seen@.len() == unique@.len(),
            forall|t: int| 0 <= t < seen@.len() ==> {
                &&& sorted_by((#[trigger] seen@[t])@, usize_leq())
                &&& seen@[t]@.to_multiset() == endpoints(unique@[t]@).to_multiset()
            },
        decreases cycles@.len() - i,
    {
        let key = cycle_key(&cycles[i]);
        let ghost x = all[i as int];
        assert(x == cycles@[i as int]@);
        let ghost d = seqs_of(unique@);
        let mut found = false;
        let mut t: usize = 0;
        while t < seen.len()
            invariant
                t <= seen@.len(),
                seen@.len() == unique@.len(),
                d == seqs_of(unique@),
                sorted_by(key@, usize_leq()),
                key@.to_multiset() == endpoints(x).to_multiset(),
                forall|q: int| 0 <= q < seen@.len() ==> {
                    &&& sorted_by((#[trigger] seen@[q])@, usize_leq())
                    &&& seen@[q]@.to_multiset() == endpoints(unique@[q]@).to_multiset()
                },
                found <==> exists|q: int| 0 <= q < t && #[trigger] same_key(d[q], x),
            decreases seen@.len() - t,
        {
            let eq = same_keys(&seen[t], &key);
            proof {
                lemma_keys_equal(seen@[t as int]@, key@);
                assert(d[t as int] == unique@[t as int]@);
                if same_key(d[t as int], x) {
                    assert(eq);
                }
            }
            if eq {
                found = true;
            }
            t = t + 1;
        }
        proof {
            let s = all.take(i + 1);
            assert(s.drop_last() =~= all.take(i as int));
            lemma_distinct_keys(all.take(i as int), x);
            assert(s.last() == x);
            if exists|j: int| 0 <= j < s.len() - 1 && #[trigger] same_key(s[j], s.last()) {
                let j = choose|j: int| 0 <= j < s.len() - 1 && #[trigger] same_key(s[j], s.last());
                assert(same_key(all.take(i as int)[j], x));
            }
            if exists|j: int| 0 <= j < all.take(i as int).len() && #[trigger] same_key(all.take(i as int)[j], x) {
                let j = choose|j: int| 0 <= j < all.take(i as int).len() && #[trigger] same_key(all.take(i as int)[j], x);
                assert(same_key(s[j], s.last()));
            }
        }
        if !found {
            let c = copy_path(&cycles[i]);
            unique.push(c);
            seen.push(key);
            assert(seqs_of(unique@) =~= d.push(x));
        }
        i = i + 1;
    }
    assert(all.take(i as int) =~= all);
    unique
}

fn copy_path(path: &Vec<(usize, usize)>) -> (r: Vec<(usize, usize)>)
    ensures
        r@ == path@,
{
    let mut r: Vec<(usize, usize)> = Vec::new();
    let mut i: usize = 0;
    while i < path.len()
        invariant
            i <= path@.len(),
            r@ == path@.take(i as int),
        decreases path@.len() - i,
    {
        r.push(path[i]);
        assert(r@ =~= path@.take(i + 1));
        i = i + 1;
    }
    assert(path@.take(i as int) =~= path@);
    r
}

/// Depth-first search for the simple cycles through `start`: explores the
/// out-edges of `node`, extending `path` while it has at most `max_depth`
/// edges, and appends to `cycles` each path that an edge closes back to
/// `start`, together with that closing edge. `path` and `in_path` are handed
/// back as they came. From a consistent state, every cycle appended is a
/// simple cycle through `start`, and every simple cycle through `start` of at
/// most `max_depth + 1` edges that extends `path` is appended.
pub fn dfs_cycles(
    start: usize,
    node: usize,
    adj: &[Vec<usize>],
    path: &mut Vec<(usize, usize)>,
    in_path: &mut [bool],
    _visited: &mut [bool],
    cycles: &mut Vec<Vec<(usize, usize)>>,
    max_depth: usize,
)
    requires
        old(path)@.len() <= max_depth ==> node < adj@.len(),
        adj@.len() <= old(in_path)@.len(),
        adjacency_closed(seqs_of(adj@)),
    ensures
        final(path)@ == old(path)@,
        final(in_path)@ == old(in_path)@,
        final(_visited)@ == old(_visited)@,
        seqs_of(final(cycles)@) == seqs_of(old(cycles)@) + dfs_node(
            seqs_of(adj@),
            start,
            node,
            old(path)@,
            old(in_path)@,
            max_depth as nat,
        ),
        search_state(seqs_of(adj@), start, node, old(path)@, old(in_path)@) ==>
            forall|k: int| old(cycles)@.len() <= k < final(cycles)@.len() ==>
                is_simple_cycle(seqs_of(adj@), start, (#[trigger] final(cycles)@[k])@, (max_depth + 1) as nat),
        search_state(seqs_of(adj@), start, node, old(path)@, old(in_path)@) && marks_path(old(path)@, old(in_path)@)
            ==> forall|c: Seq<(usize, usize)>| #[trigger] is_simple_cycle(seqs_of(adj@), start, c, (max_depth + 1) as nat)
                && old(path)@.len() < c.len() && c.take(old(path)@.len() as int) == old(path)@ ==>
                exists|k: int| old(cycles)@.len() <= k < final(cycles)@.len() && (#[trigger] final(cycles)@[k])@ == c,
    decreases max_depth + 1 - old(path)@.len(),
{
    let ghost a = seqs_of(adj@);
    let ghost c_in = cycles@;
    if path.len() > max_depth {
        assert(cycles@ =~= c_in);
        return;
    }
    let ghost p0 = path@;
    let ghost ip0 = in_path@;
    let ghost c0 = seqs_of(cycles@);
    assert(a[node as int] == adj@[node as int]@);
    let mut i: usize = 0;
    while i < adj[node].len()
        invariant
            node < adj@.len(),
            a == seqs_of(adj@),
            a[node as int] == adj@[node as int]@,
            adjacency_closed(a),
            adj@.len() <= in_path@.len(),
            p0.len() <= max_depth,
            path@ == p0,
            p0 == old(path)@,
            in_path@ == ip0,
            _visited@ == old(_visited)@,
            i <= adj@[node as int]@.len(),
            c0 + dfs_edges(a, start, node, p0, ip0, max_depth as nat, 0)
                == seqs_of(cycles@) + dfs_edges(a, start, node, p0, ip0, max_depth as nat, i as nat),
        decreases adj@[node as int]@.len() - i,
    {
        let next = adj[node][i];
        let ghost before = seqs_of(cycles@);
        let ghost rest = dfs_edges(a, start, node, p0, ip0, max_depth as nat, (i + 1) as nat);
        assert(next < in_path@.len());
        if next == start {
            let mut c = copy_path(path);
            c.push((node, start));
            cycles.push(c);
            assert(seqs_of(cycles@) =~= before + seq![p0.push((node, start))]);
            assert(before + dfs_edges(a, start, node, p0, ip0, max_depth as nat, i as nat)
                =~= seqs_of(cycles@) + rest);
        } else if !in_path[next] {
            in_path[next] = true;
            path.push((node, next));
            dfs_cycles(start, next, adj, path, in_path, _visited, cycles, max_depth);
            path.pop();
            in_path[next] = false;
            assert(path@ =~= p0);
            assert(in_path@ =~= ip0);
            assert(before + dfs_edges(a, start, node, p0, ip0, max_depth as nat, i as nat)
                =~= seqs_of(cycles@) + rest);
        } else {
            assert(dfs_edges(a, start, node, p0, ip0, max_depth as nat, i as nat) =~= rest);
        }
        i = i + 1;
    }
    proof {
        let d = dfs_node(a, start, node, p0, ip0, max_depth as nat);
        assert(d == dfs_edges(a, start, node, p0, ip0, max_depth as nat, 0));
        assert(seqs_of(cycles@) == seqs_of(c_in) + d);
        if search_state(a, start, node, p0, ip0) {
            lemma_dfs_node_sound(a, start, node, p0, ip0, max_depth as nat);
            assert forall|k: int| c_in.len() <= k < cycles@.len() implies
                is_simple_cycle(a, start, (#[trigger] cycles@[k])@, (max_depth + 1) as nat) by {
                assert(seqs_of(cycles@)[k] == cycles@[k]@);
                assert(seqs_of(cycles@)[k] == d[k - c_in.len()]);
            }
            if marks_path(p0, ip0) {
                assert forall|c: Seq<(usize, usize)>| #[trigger] is_simple_cycle(a, start, c, (max_depth + 1) as nat)
                    && p0.len() < c.len() && c.take(p0.len() as int) == p0 implies
                    exists|k: int| c_in.len() <= k < cycles@.len() && (#[trigger] cycles@[k])@ == c by {
                    lemma_dfs_node_complete(a, start, node, p0, ip0, max_depth as nat, c);
                    let j = choose|j: int| 0 <= j < d.len() && d[j] == c;
                    let k = c_in.len() + j;
                    assert(seqs_of(cycles@)[k] == cycles@[k]@);
                    assert(cycles@[k]@ == c);
                }
            }
        }
    }
}

/// Find the simple cycles of the graph: a depth-first search from every
/// agent, in index order, for the cycles of at most 9 edges (a path of at
/// most 8 edges and the edge that closes it back to its start); of the cycles
/// with the same endpoints, the first one found is kept.
pub fn find_simple_cycles<W>(graph: &OpinionGraph<W>) -> (r: Vec<Vec<(usize, usize)>>)
    requires
        graph.well_formed(),
    ensures
        seqs_of(r@) == distinct_cycles(
            cycles_from_starts(out_lists(graph.agents@.len(), graph.edge_index_pairs()), graph.agents@.len()),
        ),
        forall|k: int| 0 <= k < r@.len() ==> {
            let c = (#[trigger] r@[k])@;
            is_simple_cycle(out_lists(graph.agents@.len(), graph.edge_index_pairs()), c[0].0, c, 9)
        },
        forall|k1: int, k2: int| 0 <= k1 < k2 < r@.len() ==> !same_key((#[trigger] r@[k1])@, (#[trigger] r@[k2])@),
        forall|c: Seq<(usize, usize)>| #![trigger is_simple_cycle(out_lists(graph.agents@.len(), graph.edge_index_pairs()), c[0].0, c, 9)]
            c.len() > 0 && is_simple_cycle(out_lists(graph.agents@.len(), graph.edge_index_pairs()), c[0].0, c, 9)
            ==> exists|k: int| 0 <= k < r@.len() && same_key(#[trigger] r@[k]@, c),
{
    let n = graph.n();
    let ends = match graph.edge_indices() {
        Some(v) => v,
        None => {
            return Vec::new();
        },
    };
    assert(ends_below(n as nat, ends@));
    let adj = adjacency_lists(n, &ends);
    let ghost a = seqs_of(adj@);
    let mut cycles: Vec<Vec<(usize, usize)>> = Vec::new();
    let mut visited: Vec<bool> = vec![false; n];
    let mut path: Vec<(usize, usize)> = Vec::new();
    let mut in_path: Vec<bool> = vec![false; n];
    assert(in_path@ =~= Seq::new(n as nat, |i: int| false));
    let mut start: usize = 0;
    while start < n
        invariant
            start <= n,
            a == seqs_of(adj@),
            a == out_lists(n as nat, ends@),
            adjacency_closed(a),
            a.len() == n,
            path@ == Seq::<(usize, usize)>::empty(),
            in_path@ == Seq::new(n as nat, |i: int| false),
            seqs_of(cycles@) == cycles_from_starts(a, start as nat),
        decreases n - start,
    {
        dfs_cycles(start, start, adj.as_slice(), &mut path, in_path.as_mut_slice(), visited.as_mut_slice(), &mut cycles, 8);
        start = start + 1;
    }
    let r = dedup_cycles(&cycles);
    proof {
        lemma_cycles_from_starts_sound(a, n as nat);
        lemma_distinct_cycles_from(seqs_of(cycles@));
        lemma_distinct_cycles_distinct(seqs_of(cycles@));
        assert forall|c: Seq<(usize, usize)>| #![trigger is_simple_cycle(a, c[0].0, c, 9)]
            c.len() > 0 && is_simple_cycle(a, c[0].0, c, 9) implies
            exists|k: int| 0 <= k < r@.len() && same_key(#[trigger] r@[k]@, c) by {
            lemma_cycles_from_starts_complete(a, n as nat, c);
            let all = seqs_of(cycles@);
            let j = choose|j: int| 0 <= j < all.len() && all[j] == c;
            assert(same_key(all[j], c));
            lemma_distinct_keys(all, c);
            let t = choose|t: int| 0 <= t < distinct_cycles(all).len() && #[trigger] same_key(distinct_cycles(all)[t], c);
            assert(seqs_of(r@)[t] == r@[t]@);
        }
        assert forall|k1: int, k2: int| 0 <= k1 < k2 < r@.len() implies
            !same_key((#[trigger] r@[k1])@, (#[trigger] r@[k2])@) by {
            assert(seqs_of(r@)[k1] == r@[k1]@);
            assert(seqs_of(r@)[k2] == r@[k2]@);
        }
        assert forall|k: int| 0 <= k < r@.len() implies {
            let c = (#[trigger] r@[k])@;
            is_simple_cycle(a, c[0].0, c, 9)
        } by {
            let c = r@[k]@;
            assert(seqs_of(r@)[k] == c);
            let j = choose|j: int| 0 <= j < seqs_of(cycles@).len() && seqs_of(cycles@)[j] == c;
            assert(cycles_from_starts(a, n as nat)[j] == c);
        }
    }
    r
}

/// How many steps of `cycle` run along edge `k`: the steps `(i, j)` whose
/// last edge from `i` to `j` in `ends` is `k`.
pub open spec fn forward_count(ends: Seq<(usize, usize)>, cycle: Seq<(usize, usize)>, k: int) -> int {
    cycle.filter(|e: (usize, usize)| last_position(ends, e) == k).len() as int
}

/// How many steps of `cycle` run against edge `k`: the steps `(i, j)` whose
/// last edge from `j` to `i` in `ends` is `k`.
pub open spec fn backward_count(ends: Seq<(usize, usize)>, cycle: Seq<(usize, usize)>, k: int) -> int {
    cycle.filter(|e: (usize, usize)| last_position(ends, (e.1, e.0)) == k).len() as int
}

/// The position of the last edge of `ends` from `i` to `j`, if there is one.
pub fn edge_lookup(ends: &Vec<(usize, usize)>, i: usize, j: usize) -> (r: Option<usize>)
    ensures
        match r {
            Some(k) => k as int == last_position(ends@, (i, j)),
            None => last_position(ends@, (i, j)) == -1,
        },
{
    let mut found: Option<usize> = None;
    let mut k: usize = 0;
    while k < ends.len()
        invariant
            k <= ends@.len(),
            match found {
                Some(q) => q as int == last_position(ends@.take(k as int), (i, j)),
                None => last_position(ends@.take(k as int), (i, j)) == -1,
            },
        decreases ends@.len() - k,
    {
        assert(ends@.take(k + 1).drop_last() =~= ends@.take(k as int));
        if ends[k].0 == i && ends[k].1 == j {
            assert(last_position(ends@.take(k + 1), (i, j)) == k);
            found = Some(k);
        } else {
            assert(last_position(ends@.take(k + 1), (i, j)) == last_position(ends@.take(k as int), (i, j)));
        }
        k = k + 1;
    }
    assert(ends@.take(k as int) =~= ends@);
    found
}

/// The signed indicator of a cycle on the edges `ends`: for each edge, the
/// number of steps of the cycle that run along it minus the number that run
/// against it (each step counts the last edge with its endpoints).
pub fn cycle_indicator(cycle: &Vec<(usize, usize)>, ends: &Vec<(usize, usize)>) -> (c: Vec<i64>)
    requires
        cycle@.len() <= i64::MAX,
    ensures
        c@.len() == ends@.len(),
        forall|k: int| 0 <= k < c@.len() ==>
            #[trigger] c@[k] == forward_count(ends@, cycle@, k) - backward_count(ends@, cycle@, k),
{
    let m = ends.len();
    let mut c: Vec<i64> = Vec::new();
    let mut k: usize = 0;
    while k < m
        invariant
            k <= m,
            m == ends@.len(),
            c@.len() == k,
            forall|q: int| 0 <= q < k ==> c@[q] == 0,
        decreases m - k,
    {
        c.push(0);
        k = k + 1;
    }
    let mut t: usize = 0;
    while t < cycle.len()
        invariant
            t <= cycle@.len(),
            cycle@.len() <= i64::MAX,
            m == ends@.len(),
            c@.len() == m,
            forall|q: int| 0 <= q < m ==> {
                &&& #[trigger] c@[q] == forward_count(ends@, cycle@.take(t as int), q)
                    - backward_count(ends@, cycle@.take(t as int), q)
                &&& 0 <= forward_count(ends@, cycle@.take(t as int), q) <= t
                &&& 0 <= backward_count(ends@, cycle@.take(t as int), q) <= t
            },
        decreases cycle@.len() - t,
    {
        let (i, j) = cycle[t];
        let fwd = edge_lookup(ends, i, j);
        let bwd = edge_lookup(ends, j, i);
        let ghost before = c@;
        let ghost pre = cycle@.take(t as int);
        let ghost post = cycle@.take(t + 1);
        proof {
            assert(post.drop_last() =~= pre);
            assert(post.last() == (i, j));
            reveal_with_fuel(Seq::filter, 1);
            lemma_last_position(ends@, (i, j));
            lemma_last_position(ends@, (j, i));
            assert forall|q: int| 0 <= q < m implies {
                &&& forward_count(ends@, post, q) == forward_count(ends@, pre, q)
                    + (if last_position(ends@, (i, j)) == q { 1int } else { 0 })
                &&& backward_count(ends@, post, q) == backward_count(ends@, pre, q)
                    + (if last_position(ends@, (j, i)) == q { 1int } else { 0 })
            } by {
                let pf = |e: (usize, usize)| last_position(ends@, e) == q;
                let pb = |e: (usize, usize)| last_position(ends@, (e.1, e.0)) == q;
                assert(post.filter(pf) == (if pf(post.last()) { pre.filter(pf).push(post.last()) } else { pre.filter(pf) }));
                assert(post.filter(pb) == (if pb(post.last()) { pre.filter(pb).push(post.last()) } else { pre.filter(pb) }));
            }
        }
        match fwd {
            Some(q) => {
                let v = c[q];
                c.set(q, v + 1);
            },
            None => {},
        }
        match bwd {
            Some(q) => {
                let v = c[q];
                c.set(q, v - 1);
            },
            None => {},
        }
        t = t + 1;
    }
    assert(cycle@.take(t as int) =~= cycle@);
    c
}

} // verus!
