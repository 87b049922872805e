//! Random bipartite graph sampling.
//!
//! Every left vertex independently chooses `d` right-side neighbours with
//! replacement. That gives a left `d`-regular graph; no stronger expansion
//! property is enforced.

use crate::rng::random_index;
use vstd::prelude::*;

verus! {

/// Bipartite graph represented by left-to-right adjacency lists.
pub struct Graph {
    pub left_size: usize,
    pub right_size: usize,
    pub adj: Vec<Vec<usize>>,
}

/// The adjacency lists of `adj`, as sequences.
pub open spec fn adj_view(adj: Seq<Vec<usize>>) -> Seq<Seq<usize>> {
    adj.map_values(|v: Vec<usize>| v@)
}

/// `adj` lists, for each of `n` left vertices, exactly `d` neighbours, each
/// below `m`.
pub open spec fn left_regular(adj: Seq<Seq<usize>>, n: nat, m: nat, d: nat) -> bool {
    &&& adj.len() == n
    &&& forall|i: int| 0 <= i < n ==> #[trigger] adj[i].len() == d
    &&& forall|i: int, k: int| 0 <= i < n && 0 <= k < adj[i].len() ==> #[trigger] adj[i][k] < m
}

impl Graph {
    /// The adjacency lists, as sequences.
    pub open spec fn adj_seq(&self) -> Seq<Seq<usize>> {
        adj_view(self.adj@)
    }

    /// Every listed neighbour is a right vertex.
    pub open spec fn neighbors_in_range(&self) -> bool {
        forall|i: int, k: int|
            0 <= i < self.adj@.len() && 0 <= k < self.adj@[i]@.len() ==> #[trigger] self.adj@[i]@[k]
                < self.right_size
    }

    /// One list per left vertex, and every neighbour is a right vertex.
    pub open spec fn wf(&self) -> bool {
        &&& self.adj@.len() == self.left_size
        &&& self.neighbors_in_range()
    }
}

/// Sample a left `d`-regular bipartite graph with replacement.
pub fn sample_d_regular(n: usize, m: usize, d: usize) -> (g: Graph)
    requires
        n == 0 || d == 0 || m > 0,
    ensures
        g.left_size == n,
        g.right_size == m,
        g.wf(),
        left_regular(g.adj_seq(), n as nat, m as nat, d as nat),
{
    let mut adj: Vec<Vec<usize>> = Vec::new();
    let mut i: usize = 0;
    while i < n
        invariant
            i <= n,
            n == 0 || d == 0 || m > 0,
            adj@.len() == i,
            forall|a: int| 0 <= a < i ==> #[trigger] adj@[a]@.len() == d,
            forall|a: int, k: int|
                0 <= a < i && 0 <= k < adj@[a]@.len() ==> #[trigger] adj@[a]@[k] < m,
        decreases n - i,
    {
        let mut row: Vec<usize> = Vec::new();
        let mut t: usize = 0;
        while t < d
            invariant
                t <= d,
                i < n,
                n == 0 || d == 0 || m > 0,
                row@.len() == t,
                forall|k: int| 0 <= k < t ==> #[trigger] row@[k] < m,
            decreases d - t,
        {
            let j = random_index(m);
            row.push(j);
            t = t + 1;
        }
        adj.push(row);
        i = i + 1;
    }
    let g = Graph { left_size: n, right_size: m, adj };
    assert(left_regular(g.adj_seq(), n as nat, m as nat, d as nat)) by {
        assert forall|a: int, k: int|
            0 <= a < n && 0 <= k < g.adj_seq()[a].len() implies #[trigger] g.adj_seq()[a][k] < m by {
            assert(g.adj_seq()[a] == g.adj@[a]@);
        }
        assert forall|a: int| 0 <= a < n implies #[trigger] g.adj_seq()[a].len() == d by {
            assert(g.adj_seq()[a] == g.adj@[a]@);
        }
    }
    g
}

} // verus!
