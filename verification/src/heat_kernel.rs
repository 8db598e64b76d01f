//! The edge structure of the graphs that the heat kernel runs on.
//!
//! A weighted graph is given by its adjacency matrix; what connectivity and the
//! standard constructors decide is only which entries are positive. This module
//! holds that edge relation as a square boolean matrix: `adjacency[u][v]` is
//! true exactly when the weight from `u` to `v` is positive. The constructors
//! below build unit-weight graphs, whose weights are exactly these entries.

use vstd::prelude::*;

verus! {

/// The edge relation of a graph on vertices `0..n`.
#[derive(Clone, Debug)]
pub struct Graph {
    /// `adjacency[u][v]`: whether there is an edge from `u` to `v`.
    pub adjacency: Vec<Vec<bool>>,
}

/// Number of `true` entries of a sequence.
pub open spec fn count_true(s: Seq<bool>) -> nat
    decreases s.len(),
{
    if s.len() == 0 {
        0
    } else {
        count_true(s.drop_last()) + (if s.last() { 1nat } else { 0nat })
    }
}

impl Graph {
    pub open spec fn num_vertices(&self) -> nat {
        self.adjacency@.len()
    }

    pub open spec fn edge(&self, u: int, v: int) -> bool {
        self.adjacency@[u]@[v]
    }

    /// The adjacency matrix is square.
    pub open spec fn well_formed(&self) -> bool {
        forall|i: int| 0 <= i < self.num_vertices() ==> #[trigger] self.adjacency@[i]@.len()
            == self.num_vertices()
    }

    /// The edge relation is symmetric (the graph is undirected).
    pub open spec fn symmetric(&self) -> bool {
        forall|i: int, j: int|
            0 <= i < self.num_vertices() && 0 <= j < self.num_vertices() ==> #[trigger] self.edge(
                i,
                j,
            ) == self.edge(j, i)
    }

    /// `v` can be reached from vertex 0 along at most `k` edges.
    pub open spec fn reachable_within(&self, k: nat, v: int) -> bool
        decreases k,
    {
        if k == 0 {
            v == 0
        } else {
            self.reachable_within((k - 1) as nat, v) || exists|u: int|
                0 <= u < self.num_vertices() && self.reachable_within((k - 1) as nat, u)
                    && #[trigger] self.edge(u, v)
        }
    }

    /// `v` can be reached from vertex 0 along edges.
    pub open spec fn reachable(&self, v: int) -> bool {
        exists|k: nat| #[trigger] self.reachable_within(k, v)
    }

    /// Every vertex can be reached from vertex 0 (true of the empty graph).
    pub open spec fn connected(&self) -> bool {
        forall|v: int| 0 <= v < self.num_vertices() ==> #[trigger] self.reachable(v)
    }

    /// The path graph on `n` vertices: `i` and `i + 1` adjacent.
    pub open spec fn is_path(&self) -> bool {
        &&& self.well_formed()
        &&& forall|i: int, j: int|
            0 <= i < self.num_vertices() && 0 <= j < self.num_vertices() ==> #[trigger] self.edge(
                i,
                j,
            ) == (i + 1 == j || j + 1 == i)
    }

    /// The complete graph: all distinct vertices adjacent, no loops.
    pub open spec fn is_complete(&self) -> bool {
        &&& self.well_formed()
        &&& forall|i: int, j: int|
            0 <= i < self.num_vertices() && 0 <= j < self.num_vertices() ==> #[trigger] self.edge(
                i,
                j,
            ) == (i != j)
    }

    /// The cycle graph: `i` and `(i + 1) mod n` adjacent.
    pub open spec fn is_cycle(&self) -> bool {
        &&& self.well_formed()
        &&& forall|i: int, j: int|
            0 <= i < self.num_vertices() && 0 <= j < self.num_vertices() ==> #[trigger] self.edge(
                i,
                j,
            ) == (j == (i + 1) % (self.num_vertices() as int) || i == (j + 1) % (
            self.num_vertices() as int))
    }

    /// The star graph: vertex 0 adjacent to every other vertex, and nothing else.
    pub open spec fn is_star(&self) -> bool {
        &&& self.well_formed()
        &&& forall|i: int, j: int|
            0 <= i < self.num_vertices() && 0 <= j < self.num_vertices() ==> #[trigger] self.edge(
                i,
                j,
            ) == ((i == 0 && j != 0) || (j == 0 && i != 0))
    }

    /// Number of vertices.
    pub fn n(&self) -> (r: usize)
        ensures
            r == self.num_vertices(),
    {
        self.adjacency.len()
    }

    /// Whether every vertex is reachable from vertex 0 (search from vertex 0).
    pub fn is_connected(&self) -> (r: bool)
        requires
            self.well_formed(),
        ensures
            r == self.connected(),
    {
        let n = self.adjacency.len();
        if n == 0 {
            return true;
        }
        let mut visited: Vec<bool> = Vec::new();
        let mut i: usize = 0;
        while i < n
            invariant
                i <= n,
                visited@.len() == i,
                forall|j: int| 0 <= j < i ==> !visited@[j],
            decreases n - i,
        {
            visited.push(false);
            i += 1;
        }
        proof {
            lemma_count_all_false(visited@);
            lemma_count_update(visited@, 0);
            assert(self.reachable_within(0, 0));
        }
        visited.set(0, true);
        let mut stack: Vec<usize> = Vec::new();
        stack.push(0);
        let mut count: usize = 1;
        assert(stack@[0] == 0usize);
        while stack.len() > 0
            invariant
                self.well_formed(),
                n == self.num_vertices(),
                n > 0,
                visited@.len() == n,
                visited@[0],
                count == count_true(visited@),
                count <= n,
                forall|j: int| 0 <= j < stack@.len() ==> #[trigger] stack@[j] < n && visited@[stack@[j] as int],
                forall|v: int| 0 <= v < n && #[trigger] visited@[v] ==> self.reachable(v),
                forall|a: int, b: int|
                    0 <= a < n && 0 <= b < n && visited@[a] && !stack@.contains(a as usize)
                        && #[trigger] self.edge(a, b) ==> visited@[b],
            decreases (n - count) + stack.len(),
        {
            let ghost measure = (n - count) + stack.len();
            let ghost old_stack = stack@;
            let v = stack.pop().unwrap();
            assert(old_stack == stack@.push(v));
            let mut u: usize = 0;
            while u < n
                invariant
                    self.well_formed(),
                    n == self.num_vertices(),
                    n > 0,
                    v < n,
                    u <= n,
                    visited@.len() == n,
                    visited@[0],
                    visited@[v as int],
                    count == count_true(visited@),
                    count <= n,
                    (n - count) + stack.len() + 1 == measure,
                    forall|j: int| 0 <= j < stack@.len() ==> #[trigger] stack@[j] < n && visited@[stack@[j] as int],
                    forall|w: int| 0 <= w < n && #[trigger] visited@[w] ==> self.reachable(w),
                    forall|a: int, b: int|
                        0 <= a < n && 0 <= b < n && visited@[a] && !stack@.contains(a as usize)
                            && a != v && #[trigger] self.edge(a, b) ==> visited@[b],
                    forall|b: int| 0 <= b < u && #[trigger] self.edge(v as int, b) ==> visited@[b],
                decreases n - u,
            {
                if !visited[u] && self.adjacency[v][u] {
                    proof {
                        lemma_count_update(visited@, u as int);
                        lemma_count_le(visited@.update(u as int, true));
                        let k = choose|k: nat| #[trigger] self.reachable_within(k, v as int);
                        self.lemma_reach_step(k, v as int, u as int);
                    }
                    let ghost prev_stack = stack@;
                    visited.set(u, true);
                    count += 1;
                    stack.push(u);
                    assert(stack@[stack@.len() - 1] == u);
                    assert forall|x: usize| !stack@.contains(x) implies !prev_stack.contains(x) by {
                        if prev_stack.contains(x) {
                            let j = choose|j: int| 0 <= j < prev_stack.len() && prev_stack[j] == x;
                            assert(stack@[j] == x);
                        }
                    }
                }
                u += 1;
            }
            assert forall|a: int, b: int|
                0 <= a < n && 0 <= b < n && visited@[a] && !stack@.contains(a as usize)
                    && #[trigger] self.edge(a, b) implies visited@[b] by {
            }
        }
        proof {
            assert forall|a: int, b: int|
                0 <= a < n && 0 <= b < n && visited@[a] && #[trigger] self.edge(a, b) implies visited@[b] by {
            }
            assert forall|v: int| 0 <= v < n && #[trigger] self.reachable(v) implies visited@[v] by {
                let k = choose|k: nat| #[trigger] self.reachable_within(k, v);
                self.lemma_closed_covers_reachable(visited@, k, v);
            }
            lemma_count_le(visited@);
            if count == n {
                assert forall|v: int| 0 <= v < n implies #[trigger] self.reachable(v) by {
                    assert(visited@[v]);
                }
            }
            if self.connected() {
                assert forall|v: int| 0 <= v < n implies visited@[v] by {
                    assert(self.reachable(v));
                }
            }
        }
        count == n
    }

    proof fn lemma_reach_step(&self, k: nat, v: int, u: int)
        requires
            0 <= v < self.num_vertices(),
            self.reachable_within(k, v),
            self.edge(v, u),
        ensures
            self.reachable_within(k + 1, u),
            self.reachable(u),
    {
        assert(self.reachable_within(k + 1, u));
    }

    /// A vertex set that holds vertex 0 and is closed under edges holds every
    /// vertex reachable from 0.
    proof fn lemma_closed_covers_reachable(&self, visited: Seq<bool>, k: nat, v: int)
        requires
            self.well_formed(),
            visited.len() == self.num_vertices(),
            self.num_vertices() > 0,
            visited[0],
            forall|a: int, b: int|
                0 <= a < self.num_vertices() && 0 <= b < self.num_vertices() && visited[a]
                    && #[trigger] self.edge(a, b) ==> visited[b],
            0 <= v < self.num_vertices(),
            self.reachable_within(k, v),
        ensures
            visited[v],
        decreases k,
    {
        if k > 0 {
            if self.reachable_within((k - 1) as nat, v) {
                self.lemma_closed_covers_reachable(visited, (k - 1) as nat, v);
            } else {
                let u = choose|u: int|
                    0 <= u < self.num_vertices() && self.reachable_within((k - 1) as nat, u)
                        && #[trigger] self.edge(u, v);
                self.lemma_closed_covers_reachable(visited, (k - 1) as nat, u);
            }
        }
    }
}

/// The standard unit-weight graph families.
enum Family {
    Path,
    Complete,
    Cycle,
    Star,
}

/// Whether `i` and `j` are adjacent in the member of `family` on `n` vertices.
spec fn family_edge(family: Family, n: int, i: int, j: int) -> bool {
    match family {
        Family::Path => i + 1 == j || j + 1 == i,
        Family::Complete => i != j,
        Family::Cycle => j == (i + 1) % n || i == (j + 1) % n,
        Family::Star => (i == 0 && j != 0) || (j == 0 && i != 0),
    }
}

fn family_has_edge(family: &Family, n: usize, i: usize, j: usize) -> (r: bool)
    requires
        i < n,
        j < n,
    ensures
        r == family_edge(*family, n as int, i as int, j as int),
{
    match family {
        Family::Path => i + 1 == j || j + 1 == i,
        Family::Complete => i != j,
        Family::Cycle => j == (i + 1) % n || i == (j + 1) % n,
        Family::Star => (i == 0 && j != 0) || (j == 0 && i != 0),
    }
}

/// The member of `family` on `n` vertices.
fn family_graph(family: Family, n: usize) -> (g: Graph)
    ensures
        g.well_formed(),
        g.num_vertices() == n,
        forall|i: int, j: int|
            0 <= i < n && 0 <= j < n ==> #[trigger] g.edge(i, j) == family_edge(family, n as int, i, j),
{
    let mut adjacency: Vec<Vec<bool>> = Vec::new();
    let mut i: usize = 0;
    while i < n
        invariant
            i <= n,
            adjacency@.len() == i,
            forall|a: int| 0 <= a < i ==> #[trigger] adjacency@[a]@.len() == n,
            forall|a: int, b: int|
                0 <= a < i && 0 <= b < n ==> #[trigger] adjacency@[a]@[b] == family_edge(
                    family,
                    n as int,
                    a,
                    b,
                ),
        decreases n - i,
    {
        let mut row: Vec<bool> = Vec::new();
        let mut j: usize = 0;
        while j < n
            invariant
                i < n,
                j <= n,
                row@.len() == j,
                forall|b: int| 0 <= b < j ==> #[trigger] row@[b] == family_edge(family, n as int, i as int, b),
            decreases n - j,
        {
            let e = family_has_edge(&family, n, i, j);
            row.push(e);
            j += 1;
        }
        adjacency.push(row);
        i += 1;
    }
    Graph { adjacency }
}

/// Path graph on `n` vertices with unit weights.
pub fn path_graph(n: usize) -> (g: Graph)
    ensures
        g.num_vertices() == n,
        g.is_path(),
        g.symmetric(),
{
    family_graph(Family::Path, n)
}

/// Complete graph K_n with unit weights.
pub fn complete_graph(n: usize) -> (g: Graph)
    ensures
        g.num_vertices() == n,
        g.is_complete(),
        g.symmetric(),
{
    family_graph(Family::Complete, n)
}

/// Cycle graph on `n` vertices.
pub fn cycle_graph(n: usize) -> (g: Graph)
    ensures
        g.num_vertices() == n,
        g.is_cycle(),
        g.symmetric(),
{
    family_graph(Family::Cycle, n)
}

/// Star graph with center vertex 0.
pub fn star_graph(n: usize) -> (g: Graph)
    ensures
        g.num_vertices() == n,
        g.is_star(),
        g.symmetric(),
{
    family_graph(Family::Star, n)
}

impl Graph {
    /// If each vertex `v > 0` has an edge from `v - 1`, every vertex is reachable.
    proof fn lemma_chain_connected(&self)
        requires
            self.well_formed(),
            forall|v: int| 0 < v < self.num_vertices() ==> #[trigger] self.edge(v - 1, v),
        ensures
            self.connected(),
    {
        assert forall|v: int| 0 <= v < self.num_vertices() implies #[trigger] self.reachable(v) by {
            self.lemma_chain_reaches(v);
        }
    }

    proof fn lemma_chain_reaches(&self, v: int)
        requires
            self.well_formed(),
            forall|v: int| 0 < v < self.num_vertices() ==> #[trigger] self.edge(v - 1, v),
            0 <= v < self.num_vertices(),
        ensures
            self.reachable_within(v as nat, v),
            self.reachable(v),
        decreases v,
    {
        if v > 0 {
            self.lemma_chain_reaches(v - 1);
            self.lemma_reach_step((v - 1) as nat, v - 1, v);
        } else {
            assert(self.reachable_within(0, 0));
        }
    }

    /// If vertex 0 has an edge to every other vertex, every vertex is reachable.
    proof fn lemma_hub_connected(&self)
        requires
            self.well_formed(),
            forall|v: int| 0 < v < self.num_vertices() ==> #[trigger] self.edge(0, v),
        ensures
            self.connected(),
    {
        assert forall|v: int| 0 <= v < self.num_vertices() implies #[trigger] self.reachable(v) by {
            assert(self.reachable_within(0, 0));
            if v > 0 {
                self.lemma_reach_step(0, 0, v);
            }
        }
    }
}

/// Every path graph is connected.
pub proof fn lemma_path_graph_connected(g: Graph)
    requires
        g.is_path(),
    ensures
        g.connected(),
{
    assert forall|v: int| 0 < v < g.num_vertices() implies #[trigger] g.edge(v - 1, v) by {}
    g.lemma_chain_connected();
}

/// Every cycle graph is connected.
pub proof fn lemma_cycle_graph_connected(g: Graph)
    requires
        g.is_cycle(),
    ensures
        g.connected(),
{
    assert forall|v: int| 0 < v < g.num_vertices() implies #[trigger] g.edge(v - 1, v) by {
        vstd::arithmetic::div_mod::lemma_small_mod(v as nat, g.num_vertices());
    }
    g.lemma_chain_connected();
}

/// Every complete graph is connected.
pub proof fn lemma_complete_graph_connected(g: Graph)
    requires
        g.is_complete(),
    ensures
        g.connected(),
{
    assert forall|v: int| 0 < v < g.num_vertices() implies #[trigger] g.edge(0, v) by {}
    g.lemma_hub_connected();
}

/// Every star graph is connected.
pub proof fn lemma_star_graph_connected(g: Graph)
    requires
        g.is_star(),
    ensures
        g.connected(),
{
    assert forall|v: int| 0 < v < g.num_vertices() implies #[trigger] g.edge(0, v) by {}
    g.lemma_hub_connected();
}

proof fn lemma_count_all_false(s: Seq<bool>)
    requires
        forall|j: int| 0 <= j < s.len() ==> !s[j],
    ensures
        count_true(s) == 0,
    decreases s.len(),
{
    if s.len() > 0 {
        lemma_count_all_false(s.drop_last());
    }
}

proof fn lemma_count_update(s: Seq<bool>, i: int)
    requires
        0 <= i < s.len(),
        !s[i],
    ensures
        count_true(s.update(i, true)) == count_true(s) + 1,
    decreases s.len(),
{
    let t = s.update(i, true);
    if i == s.len() - 1 {
        assert(t.drop_last() =~= s.drop_last());
    } else {
        assert(t.drop_last() =~= s.drop_last().update(i, true));
        lemma_count_update(s.drop_last(), i);
    }
}

/// `count_true(s) <= s.len()`, with equality exactly when every entry is true.
proof fn lemma_count_le(s: Seq<bool>)
    ensures
        count_true(s) <= s.len(),
        count_true(s) == s.len() <==> forall|j: int| 0 <= j < s.len() ==> s[j],
    decreases s.len(),
{
    if s.len() > 0 {
        lemma_count_le(s.drop_last());
        if count_true(s) == s.len() {
            assert forall|j: int| 0 <= j < s.len() implies s[j] by {
                if j < s.len() - 1 {
                    assert(s[j] == s.drop_last()[j]);
                }
            }
        }
        if forall|j: int| 0 <= j < s.len() ==> s[j] {
            assert forall|j: int| 0 <= j < s.drop_last().len() implies s.drop_last()[j] by {
                assert(s[j] == s.drop_last()[j]);
            }
        }
    }
}

} // verus!
