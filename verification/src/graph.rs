//! Directed weighted graph of agent opinions.
//!
//! An opinion graph models agents as nodes and agreement strengths as weighted
//! directed edges. The graph is generic in the type `W` of its weights: the
//! structure (which agents exist, which edges join them, in which order) is
//! what this module computes and proves; the weights are carried along
//! unchanged.
use vstd::prelude::*;

use crate::text::{decimal, with_decimal, lemma_decimal_injective};

verus! {

/// The character sequences of a sequence of strings.
pub open spec fn names(v: Seq<String>) -> Seq<Seq<char>> {
    v.map_values(|s: String| s@)
}

/// `agents` with `name` appended, unless it is already there.
pub open spec fn with_name(agents: Seq<Seq<char>>, name: Seq<char>) -> Seq<Seq<char>> {
    if agents.contains(name) { agents } else { agents.push(name) }
}

/// Membership after `with_name`: the old names and the added one.
pub proof fn lemma_with_name_contains(agents: Seq<Seq<char>>, name: Seq<char>, other: Seq<char>)
    ensures
        with_name(agents, name).contains(other) <==> (agents.contains(other) || other == name),
{
    if !agents.contains(name) {
        let s = agents.push(name);
        assert(s[agents.len() as int] == name);
        if agents.contains(other) {
            let j = choose|j: int| 0 <= j < agents.len() && agents[j] == other;
            assert(s[j] == other);
        }
        if s.contains(other) && other != name {
            let j = choose|j: int| 0 <= j < s.len() && s[j] == other;
            assert(agents[j] == other);
        }
    }
}

/// The position of the last occurrence of `x` in `s`, or `-1` when `x` does
/// not occur.
pub open spec fn last_position<T>(s: Seq<T>, x: T) -> int
    decreases s.len(),
{
    if s.len() == 0 {
        -1
    } else if s.last() == x {
        s.len() - 1
    } else {
        last_position(s.drop_last(), x)
    }
}

/// The positions below `upto` of the edges whose source (when `source`) or
/// target (otherwise) is named `name`, in increasing order.
pub open spec fn edges_at<W>(edges: Seq<(String, String, W)>, name: Seq<char>, source: bool, upto: int) -> Seq<usize>
    decreases upto,
{
    if upto <= 0 {
        seq![]
    } else {
        let prev = edges_at(edges, name, source, upto - 1);
        let e = edges[upto - 1];
        if (if source { e.0@ } else { e.1@ }) == name {
            prev.push((upto - 1) as usize)
        } else {
            prev
        }
    }
}

/// The name at the chosen end of an edge: its source when `source`, its
/// target otherwise.
pub open spec fn end_name<W>(e: (String, String, W), source: bool) -> Seq<char> {
    if source { e.0@ } else { e.1@ }
}

/// The positions that `edges_at` lists are exactly the positions below `upto`
/// whose edge has `name` at the chosen end, each once and in increasing
/// order; there are as many of them as such edges, duplicates of an edge
/// included.
pub proof fn lemma_edges_at_exact<W>(edges: Seq<(String, String, W)>, name: Seq<char>, source: bool, upto: int)
    requires
        0 <= upto <= edges.len(),
        edges.len() <= usize::MAX,
    ensures
        ({
            let r = edges_at(edges, name, source, upto);
            &&& r.len() <= upto
            &&& forall|i: int, j: int| 0 <= i < j < r.len() ==> r[i] < r[j]
            &&& forall|i: int| 0 <= i < r.len() ==> {
                &&& (#[trigger] r[i]) < upto
                &&& end_name(edges[r[i] as int], source) == name
            }
            &&& forall|k: int| 0 <= k < upto ==>
                (r.contains(k as usize) <==> end_name(#[trigger] edges[k], source) == name)
        }),
    decreases upto,
{
    if upto > 0 {
        lemma_edges_at_exact(edges, name, source, upto - 1);
        let prev = edges_at(edges, name, source, upto - 1);
        let r = edges_at(edges, name, source, upto);
        let hit = end_name(edges[upto - 1], source) == name;
        assert(hit == ((if source { edges[upto - 1].0@ } else { edges[upto - 1].1@ }) == name));
        if hit {
            assert(r == prev.push((upto - 1) as usize));
            assert forall|k: int| 0 <= k < upto implies
                (r.contains(k as usize) <==> end_name(#[trigger] edges[k], source) == name) by {
                if k < upto - 1 {
                    if prev.contains(k as usize) {
                        let i = choose|i: int| 0 <= i < prev.len() && prev[i] == k as usize;
                        assert(r[i] == k as usize);
                    }
                    if r.contains(k as usize) {
                        let i = choose|i: int| 0 <= i < r.len() && r[i] == k as usize;
                        if i < prev.len() {
                            assert(prev[i] == r[i]);
                        } else {
                            assert(r[i] == (upto - 1) as usize);
                        }
                        assert(prev.contains(k as usize));
                    }
                } else {
                    assert(r[r.len() - 1] == (upto - 1) as usize);
                }
            }
        } else {
            assert(r == prev);
            assert forall|k: int| 0 <= k < upto implies
                (r.contains(k as usize) <==> end_name(#[trigger] edges[k], source) == name) by {
                if k == upto - 1 && r.contains(k as usize) {
                    let i = choose|i: int| 0 <= i < r.len() && r[i] == k as usize;
                    assert(prev[i] < upto - 1);
                }
            }
        }
    }
}

/// Facts about `last_position`: it is `-1` exactly when `x` is absent, and
/// otherwise a position of `x` with no occurrence after it.
pub proof fn lemma_last_position<T>(s: Seq<T>, x: T)
    ensures
        -1 <= last_position(s, x) < s.len(),
        (last_position(s, x) == -1) <==> !s.contains(x),
        last_position(s, x) >= 0 ==> s[last_position(s, x)] == x,
        forall|j: int| last_position(s, x) < j < s.len() ==> s[j] != x,
    decreases s.len(),
{
    if s.len() > 0 {
        lemma_last_position(s.drop_last(), x);
        if s.last() != x {
            if s.contains(x) {
                let j = choose|j: int| 0 <= j < s.len() && s[j] == x;
                assert(s.drop_last()[j] == x);
            }
            if s.drop_last().contains(x) {
                let j = choose|j: int| 0 <= j < s.drop_last().len() && s.drop_last()[j] == x;
                assert(s[j] == x);
            }
        } else {
            assert(s[s.len() - 1] == x);
        }
        assert forall|j: int| last_position(s, x) < j < s.len() implies s[j] != x by {
            if j < s.len() - 1 {
                assert(s.drop_last()[j] == s[j]);
            }
        }
    }
}

/// The length of the complete pair list: `rows * (n - 1)`.
pub proof fn lemma_complete_pairs_len(n: nat, rows: nat)
    requires
        rows <= n,
    ensures
        complete_pairs(n, rows).len() == rows * (n - 1),
    decreases rows,
{
    if rows == 0 {
        assert(rows * (n - 1) == 0) by (nonlinear_arith)
            requires
                rows == 0;
    } else {
        let r1 = (rows - 1) as nat;
        let w = (n - 1) as nat;
        lemma_complete_pairs_len(n, r1);
        assert(complete_row(n, r1).len() == w);
        assert(complete_pairs(n, rows).len() == complete_pairs(n, r1).len() + w);
        assert(w == n - 1);
        assert(r1 * w + w == rows * w) by (nonlinear_arith)
            requires
                r1 + 1 == rows;
    }
}

/// Each pair of the complete pair list joins two different nodes below `n`.
pub proof fn lemma_complete_pairs_bound(n: nat, rows: nat, k: int)
    requires
        rows <= n,
        0 <= k < complete_pairs(n, rows).len(),
    ensures
        complete_pairs(n, rows)[k].0 < rows,
        complete_pairs(n, rows)[k].1 < n,
        complete_pairs(n, rows)[k].0 != complete_pairs(n, rows)[k].1,
    decreases rows,
{
    if rows > 0 {
        let r1 = (rows - 1) as nat;
        let prev = complete_pairs(n, r1);
        if k < prev.len() {
            lemma_complete_pairs_bound(n, r1, k);
            assert(complete_pairs(n, rows)[k] == prev[k]);
        } else {
            assert(complete_pairs(n, rows)[k] == complete_row(n, r1)[k - prev.len()]);
        }
    }
}

/// The name of the `i`-th agent of the generated graphs: `agent_` and `i` in decimal.
pub open spec fn agent_name(i: nat) -> Seq<char> {
    "agent_"@ + decimal(i)
}

/// Different indices give different generated names.
pub proof fn lemma_agent_name_injective(a: nat, b: nat)
    requires
        agent_name(a) == agent_name(b),
    ensures
        a == b,
{
    let p = "agent_"@;
    assert(agent_name(a).skip(p.len() as int) =~= decimal(a));
    assert(agent_name(b).skip(p.len() as int) =~= decimal(b));
    lemma_decimal_injective(a, b);
}

/// The generated names `agent_0`, ..., `agent_{n-1}` are all different.
pub proof fn lemma_numbered_names_distinct(n: nat)
    ensures
        Seq::new(n, |i: int| agent_name(i as nat)).no_duplicates(),
{
    let s = Seq::new(n, |i: int| agent_name(i as nat));
    assert forall|i: int, j: int| 0 <= i < s.len() && 0 <= j < s.len() && i != j implies s[i] != s[j] by {
        if s[i] == s[j] {
            lemma_agent_name_injective(i as nat, j as nat);
        }
    }
}

/// `with_name` keeps the names free of repetitions.
pub proof fn lemma_with_name_distinct(agents: Seq<Seq<char>>, name: Seq<char>)
    requires
        agents.no_duplicates(),
    ensures
        with_name(agents, name).no_duplicates(),
{
    if !agents.contains(name) {
        let s = agents.push(name);
        assert forall|i: int, j: int| 0 <= i < s.len() && 0 <= j < s.len() && i != j implies s[i] != s[j] by {
            if i == agents.len() {
                assert(s[j] == agents[j]);
            } else if j == agents.len() {
                assert(s[i] == agents[i]);
            } else {
                assert(s[i] == agents[i] && s[j] == agents[j]);
            }
        }
    }
}

/// The targets of source `i` in the complete graph on `n` nodes, in increasing order.
pub open spec fn complete_row(n: nat, i: nat) -> Seq<(nat, nat)> {
    Seq::new((n - 1) as nat, |jj: int| (i, if jj < i { jj as nat } else { (jj + 1) as nat }))
}

/// The node pairs of the complete graph on `n` nodes whose source is below
/// `rows`: every ordered pair `(i, j)` with `i != j`, by source, then by target.
pub open spec fn complete_pairs(n: nat, rows: nat) -> Seq<(nat, nat)>
    decreases rows,
{
    if rows == 0 { seq![] } else { complete_pairs(n, (rows - 1) as nat) + complete_row(n, (rows - 1) as nat) }
}

/// A directed weighted graph of agent opinions.
///
/// Nodes are agents, edges are pairwise agreement strengths: an edge
/// `(src, dst, w)` records that `src` agrees with `dst` at strength `w`.
#[derive(Debug, Clone)]
pub struct OpinionGraph<W> {
    /// Ordered list of agent names.
    pub agents: Vec<String>,
    /// Directed edges: (source, target, weight).
    pub edges: Vec<(String, String, W)>,
}

impl<W> OpinionGraph<W> {
    /// Edge `k` joins the agents named by `pair` and carries `weight`.
    pub open spec fn edge_is(&self, k: int, pair: (nat, nat), weight: W) -> bool {
        &&& self.edge_ends(k) == (agent_name(pair.0), agent_name(pair.1))
        &&& self.edges@[k].2 == weight
    }

    /// The names of the agents, in order.
    pub open spec fn agent_names(&self) -> Seq<Seq<char>> {
        names(self.agents@)
    }

    /// The names of the source and the target of edge `k`.
    pub open spec fn edge_ends(&self, k: int) -> (Seq<char>, Seq<char>) {
        (self.edges@[k].0@, self.edges@[k].1@)
    }

    /// Every edge joins two agents of the graph.
    pub open spec fn well_formed(&self) -> bool {
        forall|k: int| #![trigger self.edges@[k]] 0 <= k < self.edges@.len() ==> {
            &&& self.agent_names().contains(self.edge_ends(k).0)
            &&& self.agent_names().contains(self.edge_ends(k).1)
        }
    }

    /// The node indices of each edge's endpoints, in edge order.
    pub open spec fn edge_index_pairs(&self) -> Seq<(usize, usize)> {
        Seq::new(
            self.edges@.len(),
            |k: int| (self.index_spec(self.edge_ends(k).0) as usize, self.index_spec(self.edge_ends(k).1) as usize),
        )
    }

    /// The index that a name resolves to: its last position among the agents.
    pub open spec fn index_spec(&self, name: Seq<char>) -> int {
        last_position(self.agent_names(), name)
    }

    /// Create an empty graph.
    pub fn new() -> (g: Self)
        ensures
            g.agents@.len() == 0,
            g.edges@.len() == 0,
            g.well_formed(),
    {
        OpinionGraph { agents: Vec::new(), edges: Vec::new() }
    }

    /// Create a graph from an existing agent list (no edges).
    pub fn with_agents(agents: Vec<String>) -> (g: Self)
        ensures
            g.agents@ == agents@,
            g.edges@.len() == 0,
            g.well_formed(),
    {
        OpinionGraph { agents, edges: Vec::new() }
    }

    /// Whether an agent of this name is present.
    fn has_agent(&self, name: &String) -> (b: bool)
        ensures
            b == self.agent_names().contains(name@),
    {
        let mut i: usize = 0;
        while i < self.agents.len()
            invariant
                i <= self.agents@.len(),
                forall|j: int| 0 <= j < i ==> self.agents@[j]@ != name@,
            decreases self.agents@.len() - i,
        {
            if self.agents[i] == *name {
                assert(self.agent_names()[i as int] == name@);
                return true;
            }
            i = i + 1;
        }
        proof {
            if self.agent_names().contains(name@) {
                let j = choose|j: int| 0 <= j < self.agent_names().len() && self.agent_names()[j] == name@;
                assert(self.agents@[j]@ == name@);
            }
        }
        false
    }

    /// Add an agent. No-op if already present.
    pub fn add_agent(&mut self, name: &str)
        ensures
            final(self).agent_names() == with_name(old(self).agent_names(), name@),
            final(self).edges@ == old(self).edges@,
            final(self).agent_names().contains(name@),
            old(self).well_formed() ==> final(self).well_formed(),
            old(self).agent_names().no_duplicates() ==> final(self).agent_names().no_duplicates(),
    {
        let s = String::from_str(name);
        if !self.has_agent(&s) {
            self.agents.push(s);
            assert(self.agent_names() =~= old(self).agent_names().push(name@));
        }
        proof {
            lemma_with_name_contains(old(self).agent_names(), name@, name@);
            if old(self).agent_names().no_duplicates() {
                lemma_with_name_distinct(old(self).agent_names(), name@);
            }
            assert forall|x: Seq<char>| old(self).agent_names().contains(x) implies self.agent_names().contains(x) by {
                lemma_with_name_contains(old(self).agent_names(), name@, x);
            }
            assert forall|k: int| #![trigger self.edges@[k]] 0 <= k < self.edges@.len() && old(self).well_formed() implies {
                &&& self.agent_names().contains(self.edge_ends(k).0)
                &&& self.agent_names().contains(self.edge_ends(k).1)
            } by {
                assert(old(self).edges@[k] == self.edges@[k]);
            }
        }
    }

    /// Add a directed edge. Agents are added automatically if new.
    pub fn add_edge(&mut self, src: &str, dst: &str, weight: W)
        ensures
            final(self).agent_names() == with_name(with_name(old(self).agent_names(), src@), dst@),
            final(self).edges@.len() == old(self).edges@.len() + 1,
            final(self).edges@.drop_last() == old(self).edges@,
            final(self).edges@.last().0@ == src@,
            final(self).edges@.last().1@ == dst@,
            final(self).edges@.last().2 == weight,
            old(self).well_formed() ==> final(self).well_formed(),
            old(self).agent_names().no_duplicates() ==> final(self).agent_names().no_duplicates(),
    {
        self.add_agent(src);
        let ghost mid = self.agent_names();
        self.add_agent(dst);
        proof {
            lemma_with_name_contains(mid, dst@, src@);
        }
        self.edges.push((String::from_str(src), String::from_str(dst), weight));
        assert(self.edges@.drop_last() =~= old(self).edges@);
        proof {
            assert forall|k: int| #![trigger self.edges@[k]] 0 <= k < self.edges@.len() && old(self).well_formed() implies {
                &&& self.agent_names().contains(self.edge_ends(k).0)
                &&& self.agent_names().contains(self.edge_ends(k).1)
            } by {
                if k < old(self).edges@.len() {
                    assert(old(self).edges@[k] == self.edges@[k]);
                    lemma_with_name_contains(old(self).agent_names(), src@, self.edge_ends(k).0);
                    lemma_with_name_contains(old(self).agent_names(), src@, self.edge_ends(k).1);
                    lemma_with_name_contains(mid, dst@, self.edge_ends(k).0);
                    lemma_with_name_contains(mid, dst@, self.edge_ends(k).1);
                }
            }
        }
    }

    /// Number of agents (nodes).
    pub fn n(&self) -> (r: usize)
        ensures
            r == self.agents@.len(),
    {
        self.agents.len()
    }

    /// Number of edges.
    pub fn m(&self) -> (r: usize)
        ensures
            r == self.edges@.len(),
    {
        self.edges.len()
    }

    /// The index of an agent: the last position at which its name occurs in
    /// `agents`, or `None` when no agent has this name.
    pub fn index_of(&self, name: &str) -> (r: Option<usize>)
        ensures
            match r {
                Some(i) => i as int == self.index_spec(name@),
                None => self.index_spec(name@) == -1,
            },
    {
        let s = String::from_str(name);
        let mut found: Option<usize> = None;
        let mut i: usize = 0;
        while i < self.agents.len()
            invariant
                i <= self.agents@.len(),
                s@ == name@,
                match found {
                    Some(j) => j as int == last_position(self.agent_names().take(i as int), name@),
                    None => last_position(self.agent_names().take(i as int), name@) == -1,
                },
            decreases self.agents@.len() - i,
        {
            assert(self.agent_names().take(i + 1).drop_last() =~= self.agent_names().take(i as int));
            assert(self.agent_names().take(i + 1).last() == self.agents@[i as int]@);
            if self.agents[i] == s {
                assert(last_position(self.agent_names().take(i + 1), name@) == i);
                found = Some(i);
            } else {
                assert(last_position(self.agent_names().take(i + 1), name@)
                    == last_position(self.agent_names().take(i as int), name@));
            }
            i = i + 1;
        }
        assert(self.agent_names().take(i as int) =~= self.agent_names());
        found
    }
}

impl<W> OpinionGraph<W> {
    /// The node indices of each edge's endpoints, in edge order, or `None`
    /// when some edge names an agent that is not in the graph.
    pub fn edge_indices(&self) -> (r: Option<Vec<(usize, usize)>>)
        ensures
            r is Some <==> self.well_formed(),
            r matches Some(v) ==> {
                &&& v@ == self.edge_index_pairs()
                &&& v@.len() == self.edges@.len()
                &&& forall|k: int| 0 <= k < v@.len() ==> {
                    &&& (#[trigger] v@[k]).0 as int == self.index_spec(self.edge_ends(k).0)
                    &&& v@[k].1 as int == self.index_spec(self.edge_ends(k).1)
                    &&& v@[k].0 < self.agents@.len()
                    &&& v@[k].1 < self.agents@.len()
                }
            },
    {
        let mut v: Vec<(usize, usize)> = Vec::new();
        let mut k: usize = 0;
        while k < self.edges.len()
            invariant
                k <= self.edges@.len(),
                v@.len() == k,
                forall|j: int| #![trigger self.edges@[j]] 0 <= j < k ==> {
                    &&& self.agent_names().contains(self.edge_ends(j).0)
                    &&& self.agent_names().contains(self.edge_ends(j).1)
                },
                forall|j: int| 0 <= j < k ==> {
                    &&& (#[trigger] v@[j]).0 as int == self.index_spec(self.edge_ends(j).0)
                    &&& v@[j].1 as int == self.index_spec(self.edge_ends(j).1)
                    &&& v@[j].0 < self.agents@.len()
                    &&& v@[j].1 < self.agents@.len()
                },
            decreases self.edges@.len() - k,
        {
            let a = self.index_of(self.edges[k].0.as_str());
            let b = self.index_of(self.edges[k].1.as_str());
            proof {
                lemma_last_position(self.agent_names(), self.edge_ends(k as int).0);
                lemma_last_position(self.agent_names(), self.edge_ends(k as int).1);
            }
            if a.is_none() || b.is_none() {
                assert(!self.agent_names().contains(self.edge_ends(k as int).0)
                    || !self.agent_names().contains(self.edge_ends(k as int).1));
                assert(!self.well_formed());
                return None;
            }
            let i = a.unwrap();
            let j = b.unwrap();
            v.push((i, j));
            assert(self.agent_names().contains(self.edge_ends(k as int).0));
            assert(self.agent_names().contains(self.edge_ends(k as int).1));
            k = k + 1;
        }
        assert(v@ =~= self.edge_index_pairs());
        Some(v)
    }
}

impl<W> OpinionGraph<W> {
    fn edges_touching(&self, idx: usize, source: bool) -> (r: Vec<usize>)
        requires
            idx < self.agents@.len(),
        ensures
            r@ == edges_at(self.edges@, self.agents@[idx as int]@, source, self.edges@.len() as int),
    {
        let name = &self.agents[idx];
        let mut r: Vec<usize> = Vec::new();
        let mut k: usize = 0;
        while k < self.edges.len()
            invariant
                k <= self.edges@.len(),
                idx < self.agents@.len(),
                *name == self.agents@[idx as int],
                r@ == edges_at(self.edges@, name@, source, k as int),
            decreases self.edges@.len() - k,
        {
            let hit = if source { self.edges[k].0 == *name } else { self.edges[k].1 == *name };
            if hit {
                r.push(k);
            }
            k = k + 1;
        }
        r
    }

    /// The positions of the edges that leave agent `idx` (their source has its
    /// name), in edge order: the terms of its out-degree.
    pub fn edges_from(&self, idx: usize) -> (r: Vec<usize>)
        requires
            idx < self.agents@.len(),
        ensures
            r@ == edges_at(self.edges@, self.agents@[idx as int]@, true, self.edges@.len() as int),
            forall|i: int, j: int| 0 <= i < j < r@.len() ==> r@[i] < r@[j],
            forall|i: int| 0 <= i < r@.len() ==> (#[trigger] r@[i]) < self.edges@.len(),
            forall|k: int| 0 <= k < self.edges@.len() ==>
                (r@.contains(k as usize) <==> (#[trigger] self.edges@[k]).0@ == self.agents@[idx as int]@),
    {
        let r = self.edges_touching(idx, true);
        let m: usize = self.edges.len();
        proof {
            assert(self.edges@.len() == m);
            lemma_edges_at_exact(self.edges@, self.agents@[idx as int]@, true, self.edges@.len() as int);
        }
        r
    }

    /// The positions of the edges that reach agent `idx` (their target has its
    /// name), in edge order: the terms of its in-degree.
    pub fn edges_into(&self, idx: usize) -> (r: Vec<usize>)
        requires
            idx < self.agents@.len(),
        ensures
            r@ == edges_at(self.edges@, self.agents@[idx as int]@, false, self.edges@.len() as int),
            forall|i: int, j: int| 0 <= i < j < r@.len() ==> r@[i] < r@[j],
            forall|i: int| 0 <= i < r@.len() ==> (#[trigger] r@[i]) < self.edges@.len(),
            forall|k: int| 0 <= k < self.edges@.len() ==>
                (r@.contains(k as usize) <==> (#[trigger] self.edges@[k]).1@ == self.agents@[idx as int]@),
    {
        let r = self.edges_touching(idx, false);
        let m: usize = self.edges.len();
        proof {
            assert(self.edges@.len() == m);
            lemma_edges_at_exact(self.edges@, self.agents@[idx as int]@, false, self.edges@.len() as int);
        }
        r
    }
}

impl<W: Copy> OpinionGraph<W> {
    /// The agents `agent_0`, ..., `agent_{n-1}`.
    fn numbered_agents(n: usize) -> (v: Vec<String>)
        ensures
            v@.len() == n,
            names(v@) == Seq::new(n as nat, |i: int| agent_name(i as nat)),
    {
        let mut v: Vec<String> = Vec::new();
        let mut i: usize = 0;
        while i < n
            invariant
                i <= n,
                v@.len() == i,
                names(v@) == Seq::new(i as nat, |j: int| agent_name(j as nat)),
            decreases n - i,
        {
            let ghost old_names = names(v@);
            v.push(with_decimal("agent_", i));
            assert(names(v@)[i as int] == agent_name(i as nat));
            assert forall|j: int| 0 <= j < i + 1 implies names(v@)[j]
                == Seq::new((i + 1) as nat, |t: int| agent_name(t as nat))[j] by {
                if j < i {
                    assert(names(v@)[j] == old_names[j]);
                    assert(old_names[j] == Seq::new(i as nat, |t: int| agent_name(t as nat))[j]);
                }
            }
            assert(names(v@) =~= Seq::new((i + 1) as nat, |j: int| agent_name(j as nat)));
            i = i + 1;
        }
        v
    }

    /// Build a complete graph with uniform weight: agents `agent_0` to
    /// `agent_{n-1}`, and an edge from every agent to every other agent, by
    /// source, then by target.
    pub fn complete(n: usize, weight: W) -> (g: Self)
        ensures
            g.agent_names() == Seq::new(n as nat, |i: int| agent_name(i as nat)),
            g.edges@.len() == n * (n - 1),
            g.edges@.len() == complete_pairs(n as nat, n as nat).len(),
            forall|k: int| 0 <= k < g.edges@.len() ==>
                #[trigger] g.edge_is(k, complete_pairs(n as nat, n as nat)[k], weight),
            g.well_formed(),
            g.agent_names().no_duplicates(),
    {
        let agents = Self::numbered_agents(n);
        let mut edges: Vec<(String, String, W)> = Vec::new();
        let mut i: usize = 0;
        while i < n
            invariant
                i <= n,
                agents@.len() == n,
                names(agents@) == Seq::new(n as nat, |j: int| agent_name(j as nat)),
                edges@.len() == complete_pairs(n as nat, i as nat).len(),
                forall|k: int| 0 <= k < edges@.len() ==> {
                    let p = #[trigger] complete_pairs(n as nat, i as nat)[k];
                    &&& edges@[k].0@ == agent_name(p.0)
                    &&& edges@[k].1@ == agent_name(p.1)
                    &&& edges@[k].2 == weight
                },
            decreases n - i,
        {
            let ghost before = edges@;
            let ghost row = complete_row(n as nat, i as nat);
            let mut j: usize = 0;
            while j < n
                invariant
                    i < n,
                    j <= n,
                    agents@.len() == n,
                    names(agents@) == Seq::new(n as nat, |t: int| agent_name(t as nat)),
                    row == complete_row(n as nat, i as nat),
                    before.len() == complete_pairs(n as nat, i as nat).len(),
                    edges@.len() == before.len() + (if j > i { j - 1 } else { j as int }),
                    edges@.take(before.len() as int) == before,
                    forall|k: int| before.len() <= k < edges@.len() ==> {
                        let p = #[trigger] row[k - before.len()];
                        &&& edges@[k].0@ == agent_name(p.0)
                        &&& edges@[k].1@ == agent_name(p.1)
                        &&& edges@[k].2 == weight
                    },
                decreases n - j,
            {
                if i != j {
                    let ghost len0 = edges@.len();
                    assert(names(agents@)[i as int] == agents@[i as int]@);
                    assert(names(agents@)[j as int] == agents@[j as int]@);
                    edges.push((agents[i].clone(), agents[j].clone(), weight));
                    proof {
                        let jj = len0 - before.len();
                        assert(row[jj] == (i as nat, j as nat));
                        assert(edges@.take(before.len() as int) =~= before);
                    }
                }
                j = j + 1;
            }
            proof {
                let next = complete_pairs(n as nat, (i + 1) as nat);
                assert(next == complete_pairs(n as nat, i as nat) + row);
                assert forall|k: int| 0 <= k < edges@.len() implies {
                    let p = #[trigger] next[k];
                    &&& edges@[k].0@ == agent_name(p.0)
                    &&& edges@[k].1@ == agent_name(p.1)
                    &&& edges@[k].2 == weight
                } by {
                    if k < before.len() {
                        assert(edges@[k] == before[k]);
                        assert(next[k] == complete_pairs(n as nat, i as nat)[k]);
                    } else {
                        assert(next[k] == row[k - before.len()]);
                    }
                }
            }
            i = i + 1;
        }
        proof {
            lemma_complete_pairs_len(n as nat, n as nat);
        }
        let g = OpinionGraph { agents, edges };
        assert forall|k: int| 0 <= k < g.edges@.len() implies
            #[trigger] g.edge_is(k, complete_pairs(n as nat, n as nat)[k], weight) by {}
        proof {
            lemma_numbered_names_distinct(n as nat);
            assert forall|k: int| #![trigger g.edges@[k]] 0 <= k < g.edges@.len() implies {
                &&& g.agent_names().contains(g.edge_ends(k).0)
                &&& g.agent_names().contains(g.edge_ends(k).1)
            } by {
                let p = complete_pairs(n as nat, n as nat)[k];
                assert(g.edge_is(k, p, weight));
                lemma_complete_pairs_bound(n as nat, n as nat, k);
                assert(g.agent_names()[p.0 as int] == agent_name(p.0));
                assert(g.agent_names()[p.1 as int] == agent_name(p.1));
            }
        }
        g
    }

    /// Build a ring graph: agents `agent_0` to `agent_{n-1}`, and an edge from
    /// each agent to the next one, the last agent to the first.
    pub fn ring(n: usize, weight: W) -> (g: Self)
        ensures
            g.agent_names() == Seq::new(n as nat, |i: int| agent_name(i as nat)),
            g.edges@.len() == n,
            forall|k: int| 0 <= k < n ==>
                #[trigger] g.edge_is(k, (k as nat, ((k + 1) % (n as int)) as nat), weight),
            g.well_formed(),
            g.agent_names().no_duplicates(),
    {
        let agents = Self::numbered_agents(n);
        let mut edges: Vec<(String, String, W)> = Vec::new();
        let mut i: usize = 0;
        while i < n
            invariant
                i <= n,
                agents@.len() == n,
                names(agents@) == Seq::new(n as nat, |j: int| agent_name(j as nat)),
                edges@.len() == i,
                forall|k: int| 0 <= k < i ==> {
                    &&& (#[trigger] edges@[k]).0@ == agent_name(k as nat)
                    &&& edges@[k].1@ == agent_name(((k + 1) % (n as int)) as nat)
                    &&& edges@[k].2 == weight
                },
            decreases n - i,
        {
            let j = (i + 1) % n;
            assert(names(agents@)[i as int] == agents@[i as int]@);
            assert(names(agents@)[j as int] == agents@[j as int]@);
            edges.push((agents[i].clone(), agents[j].clone(), weight));
            i = i + 1;
        }
        let g = OpinionGraph { agents, edges };
        proof {
            lemma_numbered_names_distinct(n as nat);
            assert forall|k: int| #![trigger g.edges@[k]] 0 <= k < g.edges@.len() implies {
                &&& g.agent_names().contains(g.edge_ends(k).0)
                &&& g.agent_names().contains(g.edge_ends(k).1)
            } by {
                let j = (k + 1) % (n as int);
                assert(g.agent_names()[k] == agent_name(k as nat));
                assert(g.agent_names()[j] == agent_name(j as nat));
            }
        }
        g
    }

    /// Add a symmetric (bidirectional) edge with the same weight.
    pub fn add_symmetric_edge(&mut self, a: &str, b: &str, weight: W)
        ensures
            final(self).agent_names() == with_name(with_name(old(self).agent_names(), a@), b@),
            final(self).edges@.len() == old(self).edges@.len() + 2,
            final(self).edges@.take(old(self).edges@.len() as int) == old(self).edges@,
            final(self).edge_ends(old(self).edges@.len() as int) == (a@, b@),
            final(self).edge_ends(old(self).edges@.len() + 1 as int) == (b@, a@),
            final(self).edges@[old(self).edges@.len() as int].2 == weight,
            final(self).edges@[old(self).edges@.len() + 1 as int].2 == weight,
            old(self).well_formed() ==> final(self).well_formed(),
            old(self).agent_names().no_duplicates() ==> final(self).agent_names().no_duplicates(),
    {
        let ghost g0 = *self;
        self.add_edge(a, b, weight);
        let ghost g1 = *self;
        self.add_edge(b, a, weight);
        proof {
            lemma_with_name_contains(g0.agent_names(), a@, a@);
            lemma_with_name_contains(with_name(g0.agent_names(), a@), b@, a@);
            lemma_with_name_contains(with_name(g0.agent_names(), a@), b@, b@);
            assert(with_name(g1.agent_names(), b@) == g1.agent_names());
            assert(with_name(g1.agent_names(), a@) == g1.agent_names());
            assert(self.edges@.take(g0.edges@.len() as int) =~= g0.edges@) by {
                assert(self.edges@.drop_last() == g1.edges@);
                assert(g1.edges@.drop_last() == g0.edges@);
            }
            assert(self.edges@[g0.edges@.len() as int] == g1.edges@.last());
        }
    }

    /// Opinion-flow vector (length m): the weight of each edge, in edge order.
    pub fn flow(&self) -> (f: Vec<W>)
        ensures
            f@.len() == self.edges@.len(),
            forall|k: int| 0 <= k < f@.len() ==> f@[k] == #[trigger] self.edges@[k].2,
    {
        let mut f: Vec<W> = Vec::new();
        let mut k: usize = 0;
        while k < self.edges.len()
            invariant
                k <= self.edges@.len(),
                f@.len() == k,
                forall|j: int| 0 <= j < k ==> f@[j] == #[trigger] self.edges@[j].2,
            decreases self.edges@.len() - k,
        {
            f.push(self.edges[k].2);
            k = k + 1;
        }
        f
    }
}

impl<W> Default for OpinionGraph<W> {
    /// The empty graph.
    fn default() -> (g: Self)
        ensures
            g.agents@.len() == 0,
            g.edges@.len() == 0,
    {
        Self::new()
    }
}

} // verus!
