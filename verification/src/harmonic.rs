//! Topology of an opinion graph: its connected components, the agents that
//! stand alone, and the dimension of the harmonic space.
use vstd::prelude::*;

use crate::decomposition::{ends_below, seqs_of};
use crate::graph::{OpinionGraph, names};

verus! {

/// Edge `e` joins `a` and `b`, in either direction.
pub open spec fn joins(e: (usize, usize), a: int, b: int) -> bool {
    (e.0 == a && e.1 == b) || (e.0 == b && e.1 == a)
}

/// Some edge of `ends` joins `a` and `b`.
pub open spec fn linked(ends: Seq<(usize, usize)>, a: int, b: int) -> bool {
    exists|k: int| 0 <= k < ends.len() && #[trigger] joins(ends[k], a, b)
}

/// Step `t` of the walk `w` follows an edge.
pub open spec fn step_ok(ends: Seq<(usize, usize)>, w: Seq<int>, t: int) -> bool {
    linked(ends, w[t], w[t + 1])
}

/// `w` is a walk: a non-empty sequence of nodes, each joined to the next.
pub open spec fn is_walk(ends: Seq<(usize, usize)>, w: Seq<int>) -> bool {
    &&& w.len() > 0
    &&& forall|t: int| 0 <= t < w.len() - 1 ==> #[trigger] step_ok(ends, w, t)
}

/// `a` and `b` are connected: some walk leads from `a` to `b`, the edges
/// taken in either direction.
pub open spec fn connected(ends: Seq<(usize, usize)>, a: int, b: int) -> bool {
    exists|w: Seq<int>| #[trigger] is_walk(ends, w) && w[0] == a && w.last() == b
}

proof fn lemma_connected_refl(ends: Seq<(usize, usize)>, a: int)
    ensures
        connected(ends, a, a),
{
    let w = seq![a];
    assert(is_walk(ends, w));
}

proof fn lemma_connected_edge(ends: Seq<(usize, usize)>, k: int)
    requires
        0 <= k < ends.len(),
    ensures
        connected(ends, ends[k].0 as int, ends[k].1 as int),
{
    let w = seq![ends[k].0 as int, ends[k].1 as int];
    assert(joins(ends[k], w[0], w[1]));
    assert(step_ok(ends, w, 0));
    assert(is_walk(ends, w));
}

proof fn lemma_connected_sym(ends: Seq<(usize, usize)>, a: int, b: int)
    requires
        connected(ends, a, b),
    ensures
        connected(ends, b, a),
{
    let w = choose|w: Seq<int>| #[trigger] is_walk(ends, w) && w[0] == a && w.last() == b;
    let r = w.reverse();
    assert forall|t: int| 0 <= t < r.len() - 1 implies #[trigger] step_ok(ends, r, t) by {
        let u = w.len() - 2 - t;
        assert(step_ok(ends, w, u));
        let k = choose|k: int| 0 <= k < ends.len() && #[trigger] joins(ends[k], w[u], w[u + 1]);
        assert(joins(ends[k], r[t], r[t + 1]));
    }
    assert(is_walk(ends, r));
}

proof fn lemma_connected_trans(ends: Seq<(usize, usize)>, a: int, b: int, c: int)
    requires
        connected(ends, a, b),
        connected(ends, b, c),
    ensures
        connected(ends, a, c),
{
    let w1 = choose|w: Seq<int>| #[trigger] is_walk(ends, w) && w[0] == a && w.last() == b;
    let w2 = choose|w: Seq<int>| #[trigger] is_walk(ends, w) && w[0] == b && w.last() == c;
    let w = w1 + w2.drop_first();
    assert forall|t: int| 0 <= t < w.len() - 1 implies #[trigger] step_ok(ends, w, t) by {
        if t < w1.len() - 1 {
            assert(step_ok(ends, w1, t));
            assert(w[t] == w1[t] && w[t + 1] == w1[t + 1]);
        } else {
            let u = t - (w1.len() - 1);
            assert(step_ok(ends, w2, u));
            assert(w[t] == w2[u] && w[t + 1] == w2[u + 1]);
        }
    }
    assert(is_walk(ends, w));
    if w2.len() == 1 {
        assert(w.last() == w1.last());
    } else {
        assert(w.last() == w2.last());
    }
}

proof fn lemma_connected_grow(ends: Seq<(usize, usize)>, more: Seq<(usize, usize)>, a: int, b: int)
    requires
        connected(ends, a, b),
        more.len() >= ends.len(),
        more.take(ends.len() as int) == ends,
    ensures
        connected(more, a, b),
{
    let w = choose|w: Seq<int>| #[trigger] is_walk(ends, w) && w[0] == a && w.last() == b;
    assert forall|t: int| 0 <= t < w.len() - 1 implies #[trigger] step_ok(more, w, t) by {
        assert(step_ok(ends, w, t));
        let k = choose|k: int| 0 <= k < ends.len() && #[trigger] joins(ends[k], w[t], w[t + 1]);
        assert(more[k] == ends[k]);
    }
    assert(is_walk(more, w));
}

proof fn lemma_walk_same_label(ends: Seq<(usize, usize)>, label: Seq<usize>, w: Seq<int>, t: int)
    requires
        forall|k: int| 0 <= k < ends.len() ==> ends[k].0 < label.len() && ends[k].1 < label.len(),
        forall|k: int| 0 <= k < ends.len() ==> label[(#[trigger] ends[k]).0 as int] == label[ends[k].1 as int],
        is_walk(ends, w),
        0 <= w[0] < label.len(),
        0 <= t < w.len(),
    ensures
        0 <= w[t] < label.len(),
        label[w[t]] == label[w[0]],
    decreases t,
{
    if t > 0 {
        lemma_walk_same_label(ends, label, w, t - 1);
        assert(step_ok(ends, w, t - 1));
        let k = choose|k: int| 0 <= k < ends.len() && #[trigger] joins(ends[k], w[t - 1], w[t]);
        assert(label[ends[k].0 as int] == label[ends[k].1 as int]);
    }
}

/// When every edge joins two nodes with the same label, connected nodes have
/// the same label.
proof fn lemma_connected_same_label(ends: Seq<(usize, usize)>, label: Seq<usize>, a: int, b: int)
    requires
        forall|k: int| 0 <= k < ends.len() ==> ends[k].0 < label.len() && ends[k].1 < label.len(),
        forall|k: int| 0 <= k < ends.len() ==> label[(#[trigger] ends[k]).0 as int] == label[ends[k].1 as int],
        connected(ends, a, b),
        0 <= a < label.len(),
    ensures
        0 <= b < label.len(),
        label[a] == label[b],
{
    let w = choose|w: Seq<int>| #[trigger] is_walk(ends, w) && w[0] == a && w.last() == b;
    lemma_walk_same_label(ends, label, w, w.len() - 1);
}

/// A union-find forest over `parent`, with the root of each node and its
/// depth below that root as ghost labels: following parents strictly lowers
/// the depth and keeps the root, and roots are their own parents.
pub open spec fn forest(parent: Seq<usize>, root: Seq<usize>, depth: Seq<nat>) -> bool {
    &&& root.len() == parent.len()
    &&& depth.len() == parent.len()
    &&& forall|i: int| #![trigger parent[i]] 0 <= i < parent.len() ==> {
        &&& parent[i] < parent.len()
        &&& (parent[i] == i <==> depth[i] == 0)
        &&& (parent[i] != i ==> depth[parent[i] as int] < depth[i])
        &&& root[parent[i] as int] == root[i]
        &&& (parent[i] == i ==> root[i] == i)
    }
    &&& forall|i: int| #![trigger root[i]] 0 <= i < parent.len() ==> {
        &&& root[i] < parent.len()
        &&& parent[root[i] as int] == root[i]
    }
}

/// The roots agree with the edges: each node is connected to its root, and
/// every edge joins two nodes with the same root.
pub open spec fn roots_match(ends: Seq<(usize, usize)>, root: Seq<usize>) -> bool {
    &&& forall|i: int| 0 <= i < root.len() ==> connected(ends, i, #[trigger] root[i] as int)
    &&& forall|k: int| 0 <= k < ends.len() ==> root[(#[trigger] ends[k]).0 as int] == root[ends[k].1 as int]
}

/// The root of `i`, compressing the path from `i` to it.
fn find(parent: &mut Vec<usize>, i: usize, Ghost(root): Ghost<Seq<usize>>, Ghost(depth): Ghost<Seq<nat>>) -> (r: usize)
    requires
        forest(old(parent)@, root, depth),
        i < old(parent)@.len(),
    ensures
        forest(final(parent)@, root, depth),
        r == root[i as int],
    decreases depth[i as int],
{
    let p = parent[i];
    if p != i {
        assert(depth[p as int] < depth[i as int]);
        let r = find(parent, p, Ghost(root), Ghost(depth));
        let ghost before = parent@;
        parent.set(i, r);
        proof {
            let n = parent@.len();
            assert(root[r as int] == r) by {
                assert(before[r as int] == r);
            }
            assert(depth[r as int] == 0) by {
                assert(before[r as int] == r);
            }
            assert(r != i) by {
                if r == i {
                    assert(before[i as int] == i);
                }
            }
            assert forall|x: int| #![trigger parent@[x]] 0 <= x < n implies {
                &&& parent@[x] < n
                &&& (parent@[x] == x <==> depth[x] == 0)
                &&& (parent@[x] != x ==> depth[parent@[x] as int] < depth[x])
                &&& root[parent@[x] as int] == root[x]
                &&& (parent@[x] == x ==> root[x] == x)
            } by {
                if x != i {
                    assert(parent@[x] == before[x]);
                }
            }
            assert forall|x: int| #![trigger root[x]] 0 <= x < n implies {
                &&& root[x] < n
                &&& parent@[root[x] as int] == root[x]
            } by {
                assert(before[root[x] as int] == root[x]);
                if root[x] == i {
                    assert(before[i as int] == i);
                }
            }
        }
        r
    } else {
        i
    }
}

/// The root of each node's component in a union-find over `ends`: two nodes
/// get the same root exactly when they are connected.
fn component_roots(n: usize, ends: &Vec<(usize, usize)>) -> (r: Vec<usize>)
    requires
        ends_below(n as nat, ends@),
    ensures
        r@.len() == n,
        forall|i: int| 0 <= i < n ==> #[trigger] r@[i] < n,
        forall|i: int, j: int| 0 <= i < n && 0 <= j < n ==>
            ((#[trigger] r@[i] == #[trigger] r@[j]) <==> connected(ends@, i, j)),
{
    let mut parent: Vec<usize> = Vec::new();
    let mut i: usize = 0;
    while i < n
        invariant
            i <= n,
            parent@.len() == i,
            forall|x: int| 0 <= x < i ==> parent@[x] == x,
        decreases n - i,
    {
        parent.push(i);
        i = i + 1;
    }
    let ghost mut root: Seq<usize> = parent@;
    let ghost mut depth: Seq<nat> = Seq::new(n as nat, |x: int| 0nat);
    proof {
        assert forall|x: int| 0 <= x < n implies connected(ends@.take(0), x, #[trigger] root[x] as int) by {
            lemma_connected_refl(ends@.take(0), x);
        }
    }
    let mut k: usize = 0;
    while k < ends.len()
        invariant
            k <= ends@.len(),
            ends_below(n as nat, ends@),
            parent@.len() == n,
            forest(parent@, root, depth),
            roots_match(ends@.take(k as int), root),
        decreases ends@.len() - k,
    {
        let (a, b) = ends[k];
        let ghost e_old = ends@.take(k as int);
        let ghost e_new = ends@.take(k + 1);
        assert(e_new.take(k as int) == e_old);
        assert(e_new[k as int] == (a, b));
        let ra = find(&mut parent, a, Ghost(root), Ghost(depth));
        let rb = find(&mut parent, b, Ghost(root), Ghost(depth));
        proof {
            lemma_connected_edge(e_new, k as int);
            assert forall|x: int| 0 <= x < n implies connected(e_new, x, #[trigger] root[x] as int) by {
                lemma_connected_grow(e_old, e_new, x, root[x] as int);
            }
        }
        if ra != rb {
            let ghost before = parent@;
            parent.set(ra, rb);
            let ghost new_root = Seq::new(n as nat, |x: int| if root[x] == ra { rb } else { root[x] });
            let ghost new_depth = Seq::new(n as nat, |x: int| if root[x] == ra { depth[x] + 1 } else { depth[x] });
            proof {
                assert(before[ra as int] == ra);
                assert(before[rb as int] == rb);
                assert(root[rb as int] == rb);
                assert(root[ra as int] == ra);
                assert forall|x: int| #![trigger parent@[x]] 0 <= x < n implies {
                    &&& parent@[x] < n
                    &&& (parent@[x] == x <==> new_depth[x] == 0)
                    &&& (parent@[x] != x ==> new_depth[parent@[x] as int] < new_depth[x])
                    &&& new_root[parent@[x] as int] == new_root[x]
                    &&& (parent@[x] == x ==> new_root[x] == x)
                } by {
                    if x != ra {
                        assert(parent@[x] == before[x]);
                        assert(root[before[x] as int] == root[x]);
                        if before[x] == x {
                            assert(root[x] == x);
                        }
                    }
                }
                assert forall|x: int| #![trigger new_root[x]] 0 <= x < n implies {
                    &&& new_root[x] < n
                    &&& parent@[new_root[x] as int] == new_root[x]
                } by {
                    assert(before[root[x] as int] == root[x]);
                }
                assert forall|x: int| 0 <= x < n implies connected(e_new, x, #[trigger] new_root[x] as int) by {
                    if root[x] == ra {
                        assert(connected(e_new, x, ra as int));
                        assert(connected(e_new, a as int, ra as int));
                        lemma_connected_sym(e_new, a as int, ra as int);
                        lemma_connected_trans(e_new, x, ra as int, a as int);
                        lemma_connected_trans(e_new, x, a as int, b as int);
                        assert(connected(e_new, b as int, rb as int));
                        lemma_connected_trans(e_new, x, b as int, rb as int);
                    }
                }
                assert forall|q: int| 0 <= q < e_new.len() implies
                    new_root[(#[trigger] e_new[q]).0 as int] == new_root[e_new[q].1 as int] by {
                    if q < k {
                        assert(e_new[q] == e_old[q]);
                        assert(root[e_old[q].0 as int] == root[e_old[q].1 as int]);
                    }
                }
            }
            proof {
                root = new_root;
                depth = new_depth;
            }
        } else {
            proof {
                assert forall|q: int| 0 <= q < e_new.len() implies
                    root[(#[trigger] e_new[q]).0 as int] == root[e_new[q].1 as int] by {
                    if q < k {
                        assert(e_new[q] == e_old[q]);
                        assert(root[e_old[q].0 as int] == root[e_old[q].1 as int]);
                    }
                }
            }
        }
        k = k + 1;
    }
    assert(ends@.take(k as int) =~= ends@);
    let mut r: Vec<usize> = Vec::new();
    let mut x: usize = 0;
    while x < n
        invariant
            x <= n,
            parent@.len() == n,
            forest(parent@, root, depth),
            r@.len() == x,
            forall|y: int| 0 <= y < x ==> r@[y] == root[y],
        decreases n - x,
    {
        let rx = find(&mut parent, x, Ghost(root), Ghost(depth));
        r.push(rx);
        x = x + 1;
    }
    proof {
        assert forall|i: int, j: int| 0 <= i < n && 0 <= j < n implies
            ((#[trigger] r@[i] == #[trigger] r@[j]) <==> connected(ends@, i, j)) by {
            assert(connected(ends@, i, root[i] as int));
            assert(connected(ends@, j, root[j] as int));
            if r@[i] == r@[j] {
                lemma_connected_sym(ends@, j, root[j] as int);
                lemma_connected_trans(ends@, i, root[i] as int, j);
            }
            if connected(ends@, i, j) {
                lemma_connected_same_label(ends@, root, i, j);
            }
        }
        assert forall|i: int| 0 <= i < n implies #[trigger] r@[i] < n by {
            assert(root[i] < n);
        }
    }
    r
}

/// The nodes below `upto` whose label is `v`, in increasing order.
pub open spec fn members(label: Seq<usize>, v: usize, upto: int) -> Seq<usize>
    decreases upto,
{
    if upto <= 0 {
        seq![]
    } else if label[upto - 1] == v {
        members(label, v, upto - 1).push((upto - 1) as usize)
    } else {
        members(label, v, upto - 1)
    }
}

proof fn lemma_members(label: Seq<usize>, v: usize, upto: int)
    requires
        0 <= upto <= label.len(),
        upto <= usize::MAX + 1,
    ensures
        forall|t: int| 0 <= t < members(label, v, upto).len() ==> {
            &&& (#[trigger] members(label, v, upto)[t]) < upto
            &&& label[members(label, v, upto)[t] as int] == v
        },
        forall|t: int, u: int| 0 <= t < u < members(label, v, upto).len() ==>
            (#[trigger] members(label, v, upto)[t]) < (#[trigger] members(label, v, upto)[u]),
        forall|x: int| 0 <= x < upto && label[x] == v ==> #[trigger] members(label, v, upto).contains(x as usize),
        (forall|x: int| 0 <= x < upto ==> label[x] != v) ==> members(label, v, upto).len() == 0,
    decreases upto,
{
    if upto > 0 {
        lemma_members(label, v, upto - 1);
        let m0 = members(label, v, upto - 1);
        let m = members(label, v, upto);
        if label[upto - 1] == v {
            assert(m == m0.push((upto - 1) as usize));
            assert forall|x: int| 0 <= x < upto && label[x] == v implies #[trigger] m.contains(x as usize) by {
                if x < upto - 1 {
                    assert(m0.contains(x as usize));
                    let t = choose|t: int| 0 <= t < m0.len() && m0[t] == x as usize;
                    assert(m[t] == m0[t]);
                } else {
                    assert(m[m0.len() as int] == x as usize);
                }
            }
        }
    }
}

/// Some group's first node has the label of `x`.
pub open spec fn has_group(label: Seq<usize>, groups: Seq<Seq<usize>>, x: int) -> bool {
    exists|g: int| 0 <= g < groups.len() && label[#[trigger] groups[g][0] as int] == label[x]
}

/// The nodes grouped by label, groups in order of their first node, each
/// group's nodes in increasing order.
fn group_by_label(label: &Vec<usize>) -> (groups: Vec<Vec<usize>>)
    ensures
        groups@.len() <= label@.len(),
        forall|g: int| 0 <= g < groups@.len() ==> {
            &&& (#[trigger] groups@[g])@.len() > 0
            &&& groups@[g]@ == members(label@, label@[groups@[g]@[0] as int], label@.len() as int)
        },
        forall|g1: int, g2: int| 0 <= g1 < g2 < groups@.len() ==>
            (#[trigger] groups@[g1])@[0] < (#[trigger] groups@[g2])@[0],
        forall|g1: int, g2: int| 0 <= g1 < groups@.len() && 0 <= g2 < groups@.len() && g1 != g2 ==>
            label@[(#[trigger] groups@[g1])@[0] as int] != label@[(#[trigger] groups@[g2])@[0] as int],
        forall|x: int| 0 <= x < label@.len() ==> #[trigger] has_group(label@, seqs_of(groups@), x),
{
    let n = label.len();
    let ghost l = label@;
    let mut groups: Vec<Vec<usize>> = Vec::new();
    let mut roots: Vec<usize> = Vec::new();
    let mut i: usize = 0;
    while i < n
        invariant
            i <= n,
            n == l.len(),
            l == label@,
            roots@.len() == groups@.len(),
            forall|g: int| 0 <= g < groups@.len() ==> {
                &&& (#[trigger] groups@[g])@.len() > 0
                &&& groups@[g]@[0] < i
                &&& roots@[g] == l[groups@[g]@[0] as int]
                &&& groups@[g]@ == members(l, roots@[g], i as int)
            },
            forall|g1: int, g2: int| 0 <= g1 < g2 < groups@.len() ==>
                (#[trigger] groups@[g1])@[0] < (#[trigger] groups@[g2])@[0],
            forall|g1: int, g2: int| 0 <= g1 < groups@.len() && 0 <= g2 < groups@.len() && g1 != g2 ==>
                #[trigger] roots@[g1] != #[trigger] roots@[g2],
            forall|x: int| #![trigger l[x]] 0 <= x < i ==> exists|g: int| 0 <= g < roots@.len() && #[trigger] roots@[g] == l[x],
        decreases n - i,
    {
        let v = label[i];
        let mut g: usize = 0;
        while g < roots.len() && roots[g] != v
            invariant
                g <= roots@.len(),
                forall|q: int| 0 <= q < g ==> roots@[q] != v,
            decreases roots@.len() - g,
        {
            g = g + 1;
        }
        let found = g < roots.len();
        let ghost old_groups = groups@;
        let ghost old_roots = roots@;
        if found {
            assert(roots@[g as int] == v);
            groups[g].push(i);
            proof {
                assert forall|q: int| 0 <= q < groups@.len() implies {
                    &&& (#[trigger] groups@[q])@.len() > 0
                    &&& groups@[q]@[0] < i + 1
                    &&& roots@[q] == l[groups@[q]@[0] as int]
                    &&& groups@[q]@ == members(l, roots@[q], i + 1)
                } by {
                    if q == g {
                        assert(groups@[q]@ == old_groups[q]@.push(i));
                        assert(groups@[q]@[0] == old_groups[q]@[0]);
                    } else {
                        assert(groups@[q] == old_groups[q]);
                        assert(old_roots[q] != v);
                    }
                }
                assert forall|g1: int, g2: int| 0 <= g1 < g2 < groups@.len() implies
                    (#[trigger] groups@[g1])@[0] < (#[trigger] groups@[g2])@[0] by {
                    assert(groups@[g1]@[0] == old_groups[g1]@[0]);
                    assert(groups@[g2]@[0] == old_groups[g2]@[0]);
                }
            }
        } else {
            proof {
                assert forall|x: int| #![trigger l[x]] 0 <= x < i implies l[x] != v by {
                    let q = choose|q: int| 0 <= q < roots@.len() && #[trigger] roots@[q] == l[x];
                    assert(roots@[q] != v);
                }
                lemma_members(l, v, i as int);
                assert(members(l, v, i + 1) == members(l, v, i as int).push(i));
            }
            let mut fresh: Vec<usize> = Vec::new();
            fresh.push(i);
            groups.push(fresh);
            roots.push(v);
            proof {
                assert(groups@[old_groups.len() as int]@ =~= members(l, v, i + 1));
                assert forall|q: int| 0 <= q < groups@.len() implies {
                    &&& (#[trigger] groups@[q])@.len() > 0
                    &&& groups@[q]@[0] < i + 1
                    &&& roots@[q] == l[groups@[q]@[0] as int]
                    &&& groups@[q]@ == members(l, roots@[q], i + 1)
                } by {
                    if q < old_groups.len() {
                        assert(groups@[q] == old_groups[q]);
                        assert(roots@[q] == old_roots[q]);
                        assert(old_roots[q] != v);
                    }
                }
                assert forall|g1: int, g2: int| 0 <= g1 < g2 < groups@.len() implies
                    (#[trigger] groups@[g1])@[0] < (#[trigger] groups@[g2])@[0] by {
                    assert(groups@[g1] == old_groups[g1]);
                    if g2 < old_groups.len() {
                        assert(groups@[g2] == old_groups[g2]);
                    }
                }
                assert forall|g1: int, g2: int| 0 <= g1 < groups@.len() && 0 <= g2 < groups@.len() && g1 != g2 implies
                    #[trigger] roots@[g1] != #[trigger] roots@[g2] by {
                    if g1 < old_roots.len() && g2 < old_roots.len() {
                        assert(roots@[g1] == old_roots[g1]);
                        assert(roots@[g2] == old_roots[g2]);
                    } else if g1 < old_roots.len() {
                        assert(roots@[g1] == old_roots[g1]);
                    } else {
                        assert(roots@[g2] == old_roots[g2]);
                    }
                }
            }
        }
        proof {
            assert forall|x: int| #![trigger l[x]] 0 <= x < i + 1 implies exists|q: int| 0 <= q < roots@.len() && #[trigger] roots@[q] == l[x] by {
                if x < i {
                    let q = choose|q: int| 0 <= q < old_roots.len() && #[trigger] old_roots[q] == l[x];
                    assert(roots@[q] == old_roots[q]);
                } else if found {
                    assert(roots@[g as int] == l[x]);
                } else {
                    assert(roots@[old_roots.len() as int] == l[x]);
                }
            }
        }
        i = i + 1;
    }
    proof {
        assert forall|x: int| 0 <= x < label@.len() implies #[trigger] has_group(label@, seqs_of(groups@), x) by {
            assert(l[x] == l[x]);
            let q = choose|q: int| 0 <= q < roots@.len() && #[trigger] roots@[q] == l[x];
            assert(groups@[q]@.len() > 0);
            assert(roots@[q] == l[groups@[q]@[0] as int]);
            assert(seqs_of(groups@)[q] == groups@[q]@);
            assert(label@[seqs_of(groups@)[q][0] as int] == label@[x]);
        }
        assert forall|g1: int, g2: int| 0 <= g1 < groups@.len() && 0 <= g2 < groups@.len() && g1 != g2 implies
            label@[(#[trigger] groups@[g1])@[0] as int] != label@[(#[trigger] groups@[g2])@[0] as int] by {
            assert(roots@[g1] != roots@[g2]);
        }
        let firsts = Seq::new(groups@.len(), |g: int| groups@[g]@[0]);
        assert forall|t: int| 0 <= t < firsts.len() implies #[trigger] firsts[t] < n by {
            assert(groups@[t]@[0] < n);
        }
        assert forall|t: int, u: int| 0 <= t < u < firsts.len() implies #[trigger] firsts[t] < #[trigger] firsts[u] by {
            assert(groups@[t]@[0] < groups@[u]@[0]);
        }
        lemma_increasing_len(firsts, n as int);
    }
    groups
}

fn copy_indices(v: &Vec<usize>) -> (r: Vec<usize>)
    ensures
        r@ == v@,
{
    let mut r: Vec<usize> = Vec::new();
    let mut i: usize = 0;
    while i < v.len()
        invariant
            i <= v@.len(),
            r@ == v@.take(i as int),
        decreases v@.len() - i,
    {
        r.push(v[i]);
        assert(r@ =~= v@.take(i + 1));
        i = i + 1;
    }
    assert(v@.take(i as int) =~= v@);
    r
}

/// Some position of `src` holds `g`.
pub open spec fn covered(src: Seq<int>, g: int) -> bool {
    exists|p: int| 0 <= p < src.len() && src[p] == g
}

/// The groups ordered by size, largest first, groups of equal size keeping
/// their order; `src` maps each position of the result to its group.
fn order_by_size(groups: &Vec<Vec<usize>>, n: usize) -> (res: (Vec<Vec<usize>>, Ghost<Seq<int>>))
    requires
        forall|g: int| 0 <= g < groups@.len() ==> 0 < (#[trigger] groups@[g])@.len() <= n,
    ensures
        res.0@.len() == res.1@.len(),
        res.0@.len() <= groups@.len(),
        forall|p: int| 0 <= p < res.0@.len() ==> {
            &&& 0 <= #[trigger] res.1@[p] < groups@.len()
            &&& res.0@[p]@ == groups@[res.1@[p]]@
        },
        forall|p: int, q: int| 0 <= p < q < res.0@.len() ==> #[trigger] res.1@[p] != #[trigger] res.1@[q],
        forall|g: int| 0 <= g < groups@.len() ==> #[trigger] covered(res.1@, g),
        forall|p: int, q: int| 0 <= p < q < res.0@.len() ==> {
            ||| (#[trigger] res.0@[p])@.len() > (#[trigger] res.0@[q])@.len()
            ||| (res.0@[p]@.len() == res.0@[q]@.len() && res.1@[p] < res.1@[q])
        },
{
    let mut out: Vec<Vec<usize>> = Vec::new();
    let ghost mut src: Seq<int> = seq![];
    let mut s: usize = n;
    while s > 0
        invariant
            s <= n,
            forall|g: int| 0 <= g < groups@.len() ==> 0 < (#[trigger] groups@[g])@.len() <= n,
            out@.len() == src.len(),
            forall|p: int| 0 <= p < out@.len() ==> {
                &&& 0 <= #[trigger] src[p] < groups@.len()
                &&& out@[p]@ == groups@[src[p]]@
                &&& out@[p]@.len() > s
            },
            forall|p: int, q: int| 0 <= p < q < out@.len() ==> #[trigger] src[p] != #[trigger] src[q],
            forall|g: int| 0 <= g < groups@.len() && (#[trigger] groups@[g])@.len() > s ==>
                exists|p: int| 0 <= p < out@.len() && #[trigger] src[p] == g,
            forall|p: int, q: int| 0 <= p < q < out@.len() ==> {
                ||| (#[trigger] out@[p])@.len() > (#[trigger] out@[q])@.len()
                ||| (out@[p]@.len() == out@[q]@.len() && src[p] < src[q])
            },
        decreases s,
    {
        let mut g: usize = 0;
        while g < groups.len()
            invariant
                0 < s <= n,
                g <= groups@.len(),
                forall|g: int| 0 <= g < groups@.len() ==> 0 < (#[trigger] groups@[g])@.len() <= n,
                out@.len() == src.len(),
                forall|p: int| 0 <= p < out@.len() ==> {
                    &&& 0 <= #[trigger] src[p] < groups@.len()
                    &&& out@[p]@ == groups@[src[p]]@
                    &&& (out@[p]@.len() > s || (out@[p]@.len() == s && src[p] < g))
                },
                forall|p: int, q: int| 0 <= p < q < out@.len() ==> #[trigger] src[p] != #[trigger] src[q],
                forall|h: int| 0 <= h < groups@.len() && ((#[trigger] groups@[h])@.len() > s
                    || (groups@[h]@.len() == s && h < g)) ==>
                    exists|p: int| 0 <= p < out@.len() && #[trigger] src[p] == h,
                forall|p: int, q: int| 0 <= p < q < out@.len() ==> {
                    ||| (#[trigger] out@[p])@.len() > (#[trigger] out@[q])@.len()
                    ||| (out@[p]@.len() == out@[q]@.len() && src[p] < src[q])
                },
            decreases groups@.len() - g,
        {
            if groups[g].len() == s {
                let ghost old_out = out@;
                let ghost old_src = src;
                let c = copy_indices(&groups[g]);
                out.push(c);
                proof {
                    src = src.push(g as int);
                    let last = old_out.len() as int;
                    assert forall|p: int| 0 <= p < out@.len() implies {
                        &&& 0 <= #[trigger] src[p] < groups@.len()
                        &&& out@[p]@ == groups@[src[p]]@
                        &&& (out@[p]@.len() > s || (out@[p]@.len() == s && src[p] < g + 1))
                    } by {
                        if p < last {
                            assert(out@[p] == old_out[p]);
                            assert(src[p] == old_src[p]);
                        }
                    }
                    assert forall|p: int, q: int| 0 <= p < q < out@.len() implies #[trigger] src[p] != #[trigger] src[q] by {
                        assert(src[p] == old_src[p]);
                        assert(out@[p] == old_out[p]);
                        if q < last {
                            assert(src[q] == old_src[q]);
                        }
                    }
                    assert forall|h: int| 0 <= h < groups@.len() && ((#[trigger] groups@[h])@.len() > s
                        || (groups@[h]@.len() == s && h < g + 1)) implies
                        exists|p: int| 0 <= p < out@.len() && #[trigger] src[p] == h by {
                        if h == g {
                            assert(src[last] == h);
                        } else {
                            let p = choose|p: int| 0 <= p < old_out.len() && #[trigger] old_src[p] == h;
                            assert(src[p] == h);
                        }
                    }
                    assert forall|p: int, q: int| 0 <= p < q < out@.len() implies {
                        ||| (#[trigger] out@[p])@.len() > (#[trigger] out@[q])@.len()
                        ||| (out@[p]@.len() == out@[q]@.len() && src[p] < src[q])
                    } by {
                        assert(src[p] == old_src[p]);
                        assert(out@[p] == old_out[p]);
                        if q < last {
                            assert(src[q] == old_src[q]);
                            assert(out@[q] == old_out[q]);
                        }
                    }
                }
            }
            g = g + 1;
        }
        s = s - 1;
    }
    assert forall|g: int| 0 <= g < groups@.len() implies #[trigger] covered(src, g) by {
        assert(groups@[g]@.len() > 0);
    }
    proof {
        lemma_distinct_bound(src, groups@.len() as int);
    }
    (out, Ghost(src))
}

/// `c` lists the connected components of the nodes `0..n` under the edges
/// `ends`: each component once, its nodes in increasing order; the
/// components by size, largest first, and components of equal size by their
/// smallest node.
pub open spec fn component_listing(n: nat, ends: Seq<(usize, usize)>, c: Seq<Seq<usize>>) -> bool {
    &&& forall|p: int| 0 <= p < c.len() ==> (#[trigger] c[p]).len() > 0
    &&& forall|p: int, t: int| 0 <= p < c.len() && 0 <= t < c[p].len() ==> #[trigger] c[p][t] < n
    &&& forall|p: int, t: int, u: int| 0 <= p < c.len() && 0 <= t < u < c[p].len() ==>
        #[trigger] c[p][t] < #[trigger] c[p][u]
    &&& forall|p: int, t: int, q: int, u: int|
        0 <= p < c.len() && 0 <= t < c[p].len() && 0 <= q < c.len() && 0 <= u < c[q].len() ==>
        (connected(ends, #[trigger] c[p][t] as int, #[trigger] c[q][u] as int) <==> p == q)
    &&& forall|i: int| 0 <= i < n ==> #[trigger] listed(c, i)
    &&& forall|p: int, q: int| 0 <= p < q < c.len() ==> {
        ||| (#[trigger] c[p]).len() > (#[trigger] c[q]).len()
        ||| (c[p].len() == c[q].len() && c[p][0] < c[q][0])
    }
}

/// Node `i` appears in the listing `c`.
pub open spec fn listed(c: Seq<Seq<usize>>, i: int) -> bool {
    exists|p: int, t: int| 0 <= p < c.len() && 0 <= t < c[p].len() && #[trigger] c[p][t] == i
}

/// The connected components of the nodes `0..n` under the edges `ends`, as
/// lists of node indices (see `component_listing`).
pub fn component_indices(n: usize, ends: &Vec<(usize, usize)>) -> (c: Vec<Vec<usize>>)
    requires
        ends_below(n as nat, ends@),
    ensures
        component_listing(n as nat, ends@, seqs_of(c@)),
        c@.len() <= n,
{
    let roots = component_roots(n, ends);
    let groups = group_by_label(&roots);
    let ghost l = roots@;
    proof {
        assert forall|g: int| 0 <= g < groups@.len() implies 0 < (#[trigger] groups@[g])@.len() <= n by {
            let m = members(l, l[groups@[g]@[0] as int], n as int);
            lemma_members(l, l[groups@[g]@[0] as int], n as int);
            assert(m.len() <= n) by {
                assert forall|t: int, u: int| 0 <= t < u < m.len() implies #[trigger] m[t] < #[trigger] m[u] by {}
                lemma_increasing_len(m, n as int);
            }
        }
    }
    let (out, Ghost(src)) = order_by_size(&groups, n);
    let ghost c = seqs_of(out@);
    proof {
        assert forall|p: int| 0 <= p < c.len() implies c[p] == members(l, l[groups@[src[p]]@[0] as int], n as int) by {
            assert(c[p] == out@[p]@);
        }
        assert forall|p: int| 0 <= p < c.len() implies (#[trigger] c[p]).len() > 0 by {
            assert(c[p] == out@[p]@);
        }
        assert forall|p: int, t: int| 0 <= p < c.len() && 0 <= t < c[p].len() implies
            #[trigger] c[p][t] < n && l[c[p][t] as int] == l[groups@[src[p]]@[0] as int] by {
            lemma_members(l, l[groups@[src[p]]@[0] as int], n as int);
        }
        assert forall|p: int, t: int, u: int| 0 <= p < c.len() && 0 <= t < u < c[p].len() implies
            #[trigger] c[p][t] < #[trigger] c[p][u] by {
            lemma_members(l, l[groups@[src[p]]@[0] as int], n as int);
        }
        assert forall|p: int, t: int, q: int, u: int|
            0 <= p < c.len() && 0 <= t < c[p].len() && 0 <= q < c.len() && 0 <= u < c[q].len() implies
            (connected(ends@, #[trigger] c[p][t] as int, #[trigger] c[q][u] as int) <==> p == q) by {
            lemma_members(l, l[groups@[src[p]]@[0] as int], n as int);
            lemma_members(l, l[groups@[src[q]]@[0] as int], n as int);
            assert(l[c[p][t] as int] == l[groups@[src[p]]@[0] as int]);
            assert(l[c[q][u] as int] == l[groups@[src[q]]@[0] as int]);
            if p != q {
                assert(src[p] != src[q]);
            }
        }
        assert forall|i: int| 0 <= i < n implies #[trigger] listed(c, i) by {
            assert(has_group(l, seqs_of(groups@), i));
            let g = choose|g: int| 0 <= g < seqs_of(groups@).len() && l[#[trigger] seqs_of(groups@)[g][0] as int] == l[i];
            assert(seqs_of(groups@)[g] == groups@[g]@);
            assert(covered(src, g));
            let p = choose|p: int| 0 <= p < src.len() && src[p] == g;
            lemma_members(l, l[groups@[g]@[0] as int], n as int);
            let m = members(l, l[groups@[g]@[0] as int], n as int);
            assert(m.contains(i as usize));
            let t = choose|t: int| 0 <= t < m.len() && m[t] == i as usize;
            assert(c[p] == m);
            assert(c[p][t] == i);
        }
        assert forall|p: int, q: int| 0 <= p < q < c.len() implies {
            ||| (#[trigger] c[p]).len() > (#[trigger] c[q]).len()
            ||| (c[p].len() == c[q].len() && c[p][0] < c[q][0])
        } by {
            assert(c[p] == out@[p]@);
            assert(c[q] == out@[q]@);
            assert(out@[p]@ == groups@[src[p]]@);
            assert(out@[q]@ == groups@[src[q]]@);
            if c[p].len() == c[q].len() {
                assert(src[p] < src[q]);
                assert(groups@[src[p]]@[0] < groups@[src[q]]@[0]);
            }
        }
    }
    out
}

/// A sequence of distinct numbers in `0..bound` has at most `bound` elements.
proof fn lemma_distinct_bound(s: Seq<int>, bound: int)
    requires
        0 <= bound,
        forall|p: int, q: int| 0 <= p < q < s.len() ==> #[trigger] s[p] != #[trigger] s[q],
        forall|p: int| 0 <= p < s.len() ==> 0 <= #[trigger] s[p] < bound,
    ensures
        s.len() <= bound,
{
    assert(s.no_duplicates()) by {
        assert forall|i: int, j: int| 0 <= i < s.len() && 0 <= j < s.len() && i != j implies s[i] != s[j] by {
            if i < j {
                assert(s[i] != s[j]);
            } else {
                assert(s[j] != s[i]);
            }
        }
    }
    s.unique_seq_to_set();
    vstd::set_lib::lemma_int_range(0, bound);
    assert(s.to_set().subset_of(vstd::set_lib::set_int_range(0, bound)));
    vstd::set_lib::lemma_len_subset(s.to_set(), vstd::set_lib::set_int_range(0, bound));
}

/// A strictly increasing sequence of numbers below `n` has at most `n` elements.
proof fn lemma_increasing_len(m: Seq<usize>, n: int)
    requires
        0 <= n,
        forall|t: int| 0 <= t < m.len() ==> #[trigger] m[t] < n,
        forall|t: int, u: int| 0 <= t < u < m.len() ==> #[trigger] m[t] < #[trigger] m[u],
    ensures
        m.len() <= n,
    decreases m.len(),
{
    if m.len() > 0 {
        let p = m.drop_last();
        assert forall|t: int| 0 <= t < p.len() implies #[trigger] p[t] < n - 1 by {
            assert(m[t] < m[m.len() - 1]);
        }
        assert forall|t: int, u: int| 0 <= t < u < p.len() implies #[trigger] p[t] < #[trigger] p[u] by {
            assert(m[t] < m[u]);
        }
        assert(m[m.len() - 1] < n);
        lemma_increasing_len(p, n - 1);
    }
}

/// `s` is strictly ordered by `lt`: each element comes before every later one.
pub open spec fn strictly_sorted<A>(s: Seq<A>, lt: spec_fn(A, A) -> bool) -> bool {
    forall|i: int, j: int| 0 <= i < j < s.len() ==> #[trigger] lt(s[i], s[j])
}

/// `lt` is a strict order: irreflexive and transitive.
pub open spec fn strict_order<A>(lt: spec_fn(A, A) -> bool) -> bool {
    &&& forall|a: A| !#[trigger] lt(a, a)
    &&& forall|a: A, b: A, c: A| #[trigger] lt(a, b) && #[trigger] lt(b, c) ==> lt(a, c)
}

/// Two sequences strictly ordered by the same strict order, with the same
/// elements, are equal.
pub proof fn lemma_strictly_sorted_unique<A>(s1: Seq<A>, s2: Seq<A>, lt: spec_fn(A, A) -> bool)
    requires
        strict_order(lt),
        strictly_sorted(s1, lt),
        strictly_sorted(s2, lt),
        forall|x: A| s1.contains(x) <==> s2.contains(x),
    ensures
        s1 == s2,
    decreases s1.len() + s2.len(),
{
    if s1.len() == 0 {
        if s2.len() > 0 {
            assert(s2.contains(s2[0]));
        }
        assert(s1 =~= s2);
    } else if s2.len() == 0 {
        assert(s1.contains(s1[0]));
    } else {
        let a = s1[0];
        let b = s2[0];
        assert(s1.contains(a));
        assert(s2.contains(b));
        if a != b {
            let i = choose|i: int| 0 <= i < s2.len() && s2[i] == a;
            let j = choose|j: int| 0 <= j < s1.len() && s1[j] == b;
            assert(i > 0);
            assert(j > 0);
            assert(lt(s2[0], s2[i]));
            assert(lt(s1[0], s1[j]));
            assert(lt(a, a));
        }
        let t1 = s1.drop_first();
        let t2 = s2.drop_first();
        assert forall|i: int, j: int| 0 <= i < j < t1.len() implies #[trigger] lt(t1[i], t1[j]) by {
            assert(lt(s1[i + 1], s1[j + 1]));
        }
        assert forall|i: int, j: int| 0 <= i < j < t2.len() implies #[trigger] lt(t2[i], t2[j]) by {
            assert(lt(s2[i + 1], s2[j + 1]));
        }
        assert forall|x: A| t1.contains(x) <==> t2.contains(x) by {
            if t1.contains(x) {
                let i = choose|i: int| 0 <= i < t1.len() && t1[i] == x;
                assert(s1[i + 1] == x);
                assert(lt(s1[0], s1[i + 1]));
                assert(x != a);
                assert(s2.contains(x));
                let k = choose|k: int| 0 <= k < s2.len() && s2[k] == x;
                assert(k != 0);
                assert(t2[k - 1] == x);
            }
            if t2.contains(x) {
                let i = choose|i: int| 0 <= i < t2.len() && t2[i] == x;
                assert(s2[i + 1] == x);
                assert(lt(s2[0], s2[i + 1]));
                assert(x != b);
                assert(s1.contains(x));
                let k = choose|k: int| 0 <= k < s1.len() && s1[k] == x;
                assert(k != 0);
                assert(t1[k - 1] == x);
            }
        }
        lemma_strictly_sorted_unique(t1, t2, lt);
        assert(s1 =~= s2) by {
            assert forall|i: int| 0 <= i < s1.len() implies s1[i] == s2[i] by {
                if i > 0 {
                    assert(s1[i] == t1[i - 1]);
                    assert(s2[i] == t2[i - 1]);
                }
            }
        }
    }
}

/// The order of indices.
pub open spec fn index_lt() -> spec_fn(usize, usize) -> bool {
    |a: usize, b: usize| a < b
}

/// The order of a component listing: larger first, then by smallest node.
pub open spec fn group_lt() -> spec_fn(Seq<usize>, Seq<usize>) -> bool {
    |g: Seq<usize>, h: Seq<usize>| g.len() > h.len() || (g.len() == h.len() && g[0] < h[0])
}

/// In a component listing, the group holding node `c[p][0]` in another listing
/// of the same graph is that same group.
proof fn lemma_listing_group_equal(
    n: nat,
    ends: Seq<(usize, usize)>,
    c1: Seq<Seq<usize>>,
    c2: Seq<Seq<usize>>,
    p: int,
    q: int,
    u: int,
)
    requires
        component_listing(n, ends, c1),
        component_listing(n, ends, c2),
        0 <= p < c1.len(),
        0 <= q < c2.len(),
        0 <= u < c2[q].len(),
        c2[q][u] == c1[p][0],
    ensures
        c1[p] == c2[q],
{
    assert(c1[p].len() > 0);
    let x = c1[p][0];
    assert forall|y: usize| c1[p].contains(y) <==> c2[q].contains(y) by {
        if c1[p].contains(y) {
            let t = choose|t: int| 0 <= t < c1[p].len() && c1[p][t] == y;
            assert(connected(ends, c1[p][0] as int, c1[p][t] as int));
            assert(y < n);
            assert(listed(c2, y as int));
            let (q2, u2) = choose|q2: int, u2: int| 0 <= q2 < c2.len() && 0 <= u2 < c2[q2].len() && #[trigger] c2[q2][u2] == y as int;
            assert(connected(ends, c2[q][u] as int, c2[q2][u2] as int));
            assert(q2 == q);
        }
        if c2[q].contains(y) {
            let t = choose|t: int| 0 <= t < c2[q].len() && c2[q][t] == y;
            assert(connected(ends, c2[q][u] as int, c2[q][t] as int));
            assert(y < n);
            assert(listed(c1, y as int));
            let (p2, u2) = choose|p2: int, u2: int| 0 <= p2 < c1.len() && 0 <= u2 < c1[p2].len() && #[trigger] c1[p2][u2] == y as int;
            assert(connected(ends, c1[p][0] as int, c1[p2][u2] as int));
            assert(p2 == p);
        }
    }
    assert forall|i: int, j: int| 0 <= i < j < c1[p].len() implies #[trigger] (index_lt())(c1[p][i], c1[p][j]) by {
        assert(c1[p][i] < c1[p][j]);
    }
    assert forall|i: int, j: int| 0 <= i < j < c2[q].len() implies #[trigger] (index_lt())(c2[q][i], c2[q][j]) by {
        assert(c2[q][i] < c2[q][j]);
    }
    lemma_strictly_sorted_unique(c1[p], c2[q], index_lt());
}

/// Every group of one component listing is a group of any other listing of
/// the same graph.
proof fn lemma_listing_groups_shared(n: nat, ends: Seq<(usize, usize)>, c1: Seq<Seq<usize>>, c2: Seq<Seq<usize>>, p: int)
    requires
        component_listing(n, ends, c1),
        component_listing(n, ends, c2),
        0 <= p < c1.len(),
    ensures
        c2.contains(c1[p]),
{
    assert(c1[p].len() > 0);
    let x = c1[p][0];
    assert(x < n);
    assert(listed(c2, x as int));
    let (q, u) = choose|q: int, u: int| 0 <= q < c2.len() && 0 <= u < c2[q].len() && #[trigger] c2[q][u] == x as int;
    lemma_listing_group_equal(n, ends, c1, c2, p, q, u);
}

/// A graph has exactly one component listing: the components of a graph, in
/// the order of the listing, are determined by the graph.
pub proof fn lemma_component_listing_unique(n: nat, ends: Seq<(usize, usize)>, c1: Seq<Seq<usize>>, c2: Seq<Seq<usize>>)
    requires
        component_listing(n, ends, c1),
        component_listing(n, ends, c2),
    ensures
        c1 == c2,
{
    assert forall|g: Seq<usize>| c1.contains(g) <==> c2.contains(g) by {
        if c1.contains(g) {
            let p = choose|p: int| 0 <= p < c1.len() && c1[p] == g;
            lemma_listing_groups_shared(n, ends, c1, c2, p);
        }
        if c2.contains(g) {
            let q = choose|q: int| 0 <= q < c2.len() && c2[q] == g;
            lemma_listing_groups_shared(n, ends, c2, c1, q);
        }
    }
    assert forall|i: int, j: int| 0 <= i < j < c1.len() implies #[trigger] (group_lt())(c1[i], c1[j]) by {
        assert(c1[i].len() > c1[j].len() || (c1[i].len() == c1[j].len() && c1[i][0] < c1[j][0]));
    }
    assert forall|i: int, j: int| 0 <= i < j < c2.len() implies #[trigger] (group_lt())(c2[i], c2[j]) by {
        assert(c2[i].len() > c2[j].len() || (c2[i].len() == c2[j].len() && c2[i][0] < c2[j][0]));
    }
    lemma_strictly_sorted_unique(c1, c2, group_lt());
}

/// The names of the agents at the given indices, list by list.
pub open spec fn named(agents: Seq<Seq<char>>, c: Seq<Seq<usize>>) -> Seq<Seq<Seq<char>>> {
    c.map_values(|g: Seq<usize>| g.map_values(|i: usize| agents[i as int]))
}

/// The character sequences of lists of strings.
pub open spec fn name_lists(v: Seq<Vec<String>>) -> Seq<Seq<Seq<char>>> {
    v.map_values(|g: Vec<String>| names(g@))
}

/// The only member of each one-member list, in order.
pub open spec fn singletons(cs: Seq<Seq<Seq<char>>>) -> Seq<Seq<char>>
    decreases cs.len(),
{
    if cs.len() == 0 {
        seq![]
    } else if cs.last().len() == 1 {
        singletons(cs.drop_last()).push(cs.last()[0])
    } else {
        singletons(cs.drop_last())
    }
}

/// The dimension of the harmonic space, by the formula the analysis uses:
/// `m - n + components` when the graph has agents and more edges than agents,
/// and `0` otherwise.
pub open spec fn h1_spec(n: nat, m: nat, n_components: nat) -> nat {
    if n > 0 && m > n { (m - n + n_components) as nat } else { 0 }
}

/// The dimension of the harmonic space counts the independent cycles: with
/// agents and more edges than agents it is the number of edges, less the
/// number of agents, plus the number of components, whatever the number of
/// components; otherwise it is 0. Each extra edge adds one to it, and each
/// extra component too.
pub proof fn lemma_h1_counts_cycles(n: nat, m: nat, n_components: nat)
    ensures
        (n > 0 && m > n) ==> h1_spec(n, m, n_components) == m - n + n_components,
        !(n > 0 && m > n) ==> h1_spec(n, m, n_components) == 0,
        (n > 0 && m > n) ==> h1_spec(n, m + 1, n_components) == h1_spec(n, m, n_components) + 1,
        (n > 0 && m > n) ==> h1_spec(n, m, n_components + 1) == h1_spec(n, m, n_components) + 1,
        (n > 0 && m > n) ==> h1_spec(n, m, n_components) >= n_components + 1,
{
}

/// The connected components of the graph, as lists of agent names: the
/// components of `component_listing` under the edges' endpoint indices,
/// each node written as its agent's name.
pub fn connected_components<W>(graph: &OpinionGraph<W>) -> (r: Vec<Vec<String>>)
    requires
        graph.well_formed(),
    ensures
        r@.len() <= graph.agents@.len(),
        exists|c: Seq<Seq<usize>>| {
            &&& component_listing(graph.agents@.len(), graph.edge_index_pairs(), c)
            &&& name_lists(r@) == named(graph.agent_names(), c)
        },
{
    let n = graph.n();
    let ends = match graph.edge_indices() {
        Some(v) => v,
        None => {
            return Vec::new();
        },
    };
    let idx = component_indices(n, &ends);
    let ghost c = seqs_of(idx@);
    let mut r: Vec<Vec<String>> = Vec::new();
    let mut p: usize = 0;
    while p < idx.len()
        invariant
            p <= idx@.len(),
            c == seqs_of(idx@),
            n == graph.agents@.len(),
            component_listing(n as nat, ends@, c),
            r@.len() == p,
            forall|q: int| 0 <= q < p ==> names((#[trigger] r@[q])@) == c[q].map_values(|i: usize| graph.agent_names()[i as int]),
        decreases idx@.len() - p,
    {
        let mut names_p: Vec<String> = Vec::new();
        let mut t: usize = 0;
        assert(c[p as int] == idx@[p as int]@);
        while t < idx[p].len()
            invariant
                t <= idx@[p as int]@.len(),
                p < idx@.len(),
                c == seqs_of(idx@),
                c[p as int] == idx@[p as int]@,
                n == graph.agents@.len(),
                component_listing(n as nat, ends@, c),
                names(names_p@) == c[p as int].take(t as int).map_values(|i: usize| graph.agent_names()[i as int]),
            decreases idx@[p as int]@.len() - t,
        {
            let i = idx[p][t];
            assert(c[p as int][t as int] == i);
            assert(i < n);
            let s = graph.agents[i].clone();
            let ghost before = names(names_p@);
            names_p.push(s);
            proof {
                let target = c[p as int].take(t + 1).map_values(|i: usize| graph.agent_names()[i as int]);
                let prev = c[p as int].take(t as int).map_values(|i: usize| graph.agent_names()[i as int]);
                assert(prev.len() == t);
                assert(before.len() == t);
                assert(names_p@.len() == t + 1);
                assert(target.len() == t + 1);
                assert(names(names_p@).len() == target.len());
                assert forall|j: int| 0 <= j < target.len() implies names(names_p@)[j] == target[j] by {
                    if j < t {
                        assert(names(names_p@)[j] == before[j]);
                        assert(before[j] == prev[j]);
                    } else {
                        assert(names(names_p@)[j] == graph.agents@[i as int]@);
                    }
                }
                assert(names(names_p@) =~= target);
            }
            t = t + 1;
        }
        assert(c[p as int].take(t as int) =~= c[p as int]);
        r.push(names_p);
        p = p + 1;
    }
    assert(name_lists(r@) =~= named(graph.agent_names(), c));
    r
}

/// Analysis of the harmonic (persistent) component of a decomposition, with
/// scalars of type `F`.
#[derive(Debug, Clone)]
pub struct HarmonicAnalysis<F> {
    /// The harmonic flow component (one entry per edge).
    pub harmonic_flow: Vec<F>,
    /// Energy fraction in the harmonic component.
    pub energy_fraction: F,
    /// Dimension of the harmonic space.
    pub h1_dimension: usize,
    /// The agents of each connected component.
    pub components: Vec<Vec<String>>,
    /// Number of connected components.
    pub n_components: usize,
}

impl<F> HarmonicAnalysis<F> {
    /// The analysis of `graph` whose decomposition has the harmonic flow
    /// `harmonic_flow` and the harmonic energy fraction `energy_fraction`:
    /// the components of the graph, their number, and the dimension of the
    /// harmonic space.
    pub fn from_decomposition<W>(graph: &OpinionGraph<W>, harmonic_flow: Vec<F>, energy_fraction: F) -> (a: Self)
        requires
            graph.well_formed(),
        ensures
            a.harmonic_flow@ == harmonic_flow@,
            a.energy_fraction == energy_fraction,
            exists|c: Seq<Seq<usize>>| {
                &&& component_listing(graph.agents@.len(), graph.edge_index_pairs(), c)
                &&& name_lists(a.components@) == named(graph.agent_names(), c)
            },
            a.n_components == a.components@.len(),
            a.h1_dimension == h1_spec(graph.agents@.len(), graph.edges@.len(), a.n_components as nat),
            (graph.agents@.len() > 0 && graph.edges@.len() > graph.agents@.len()) ==>
                a.h1_dimension == graph.edges@.len() - graph.agents@.len() + a.n_components,
            !(graph.agents@.len() > 0 && graph.edges@.len() > graph.agents@.len()) ==> a.h1_dimension == 0,
            a.n_components <= graph.agents@.len(),
    {
        let components = connected_components(graph);
        let n_components = components.len();
        let n = graph.n();
        let m = graph.m();
        let h1 = if n > 0 && m > n { m - n + n_components } else { 0 };
        HarmonicAnalysis { harmonic_flow, energy_fraction, h1_dimension: h1, components, n_components }
    }

    /// The agents that form a component of their own, in component order.
    pub fn isolated_agents(&self) -> (r: Vec<String>)
        ensures
            names(r@) == singletons(name_lists(self.components@)),
    {
        let mut r: Vec<String> = Vec::new();
        let mut p: usize = 0;
        while p < self.components.len()
            invariant
                p <= self.components@.len(),
                names(r@) == singletons(name_lists(self.components@.take(p as int))),
            decreases self.components@.len() - p,
        {
            let ghost before = names(r@);
            assert(self.components@.take(p + 1).drop_last() =~= self.components@.take(p as int));
            assert(name_lists(self.components@.take(p + 1)).drop_last() =~= name_lists(self.components@.take(p as int)));
            assert(name_lists(self.components@.take(p + 1)).last() == names(self.components@[p as int]@));
            if self.components[p].len() == 1 {
                let s = self.components[p][0].clone();
                r.push(s);
                assert(names(r@) =~= before.push(names(self.components@[p as int]@)[0]));
            } else {
                assert(names(self.components@[p as int]@).len() != 1);
            }
            p = p + 1;
        }
        assert(self.components@.take(p as int) =~= self.components@);
        r
    }
}

} // verus!
