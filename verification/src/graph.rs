//! The graph model: a square matrix of non-negative integer weights where a
//! zero entry off the diagonal means "no edge", together with the error type
//! shared by all components and the connectivity notions their contracts use.

use vstd::prelude::*;

verus! {

/// Every row has the same length as the matrix has rows.
pub open spec fn is_square(g: Seq<Seq<u64>>) -> bool {
    forall|i: int| 0 <= i < g.len() ==> #[trigger] g[i].len() == g.len()
}

/// No vertex carries an edge to itself.
pub open spec fn zero_diagonal(g: Seq<Seq<u64>>) -> bool {
    forall|i: int| 0 <= i < g.len() ==> #[trigger] g[i][i] == 0
}

/// A well-formed adjacency matrix.
pub open spec fn valid_graph(g: Seq<Seq<u64>>) -> bool {
    is_square(g) && zero_diagonal(g)
}

/// Vertices `a` and `b` are joined by an edge in either direction.
pub open spec fn step_ok(g: Seq<Seq<u64>>, a: int, b: int) -> bool {
    &&& 0 <= a < g.len()
    &&& 0 <= b < g.len()
    &&& (g[a][b] != 0 || g[b][a] != 0)
}

/// `p` walks through `g` along existing edges (in either direction).
pub open spec fn is_walk(g: Seq<Seq<u64>>, p: Seq<int>) -> bool {
    &&& p.len() >= 1
    &&& forall|k: int| 0 <= k < p.len() ==> 0 <= #[trigger] p[k] < g.len()
    &&& forall|k: int| 0 <= k < p.len() - 1 ==> step_ok(g, #[trigger] p[k], p[k + 1])
}

/// Some walk through `g` leads from `a` to `b`.
pub open spec fn connects(g: Seq<Seq<u64>>, a: int, b: int) -> bool {
    exists|p: Seq<int>| is_walk(g, p) && p.first() == a && p.last() == b
}

/// The entry above the diagonal names the undirected edge `{i, j}`: the pair
/// is an edge exactly when its upper-triangle weight is not zero, which is
/// how the candidate enumeration reads the matrix.
pub open spec fn pair_edge(g: Seq<Seq<u64>>, i: int, j: int) -> bool {
    0 <= i < j < g.len() && g[i][j] != 0
}

/// `s` splits the vertices of `g`: it holds some vertex and misses another.
pub open spec fn proper_cut(g: Seq<Seq<u64>>, s: Set<int>) -> bool {
    &&& exists|u: int| 0 <= u < g.len() && #[trigger] s.contains(u)
    &&& exists|v: int| 0 <= v < g.len() && !(#[trigger] s.contains(v))
}

/// An edge of `g` crosses the cut: exactly one endpoint lies inside `s`.
pub open spec fn crossing_edge(g: Seq<Seq<u64>>, s: Set<int>) -> bool {
    exists|i: int, j: int| #[trigger] pair_edge(g, i, j) && (s.contains(i) != s.contains(j))
}

/// Connectivity of the input graph, stated over cuts: every set of vertices
/// that holds some vertex and misses another is crossed by an edge.
pub open spec fn cut_connected(g: Seq<Seq<u64>>) -> bool {
    forall|s: Set<int>| #[trigger] proper_cut(g, s) ==> crossing_edge(g, s)
}

/// Walks stay walks in a matrix that keeps every present edge present.
pub open spec fn keeps_edges(m1: Seq<Seq<u64>>, m2: Seq<Seq<u64>>) -> bool {
    &&& m2.len() == m1.len()
    &&& forall|i: int, j: int|
        0 <= i < m1.len() && 0 <= j < m1.len() && m1[i][j] != 0 ==> #[trigger] m2[i][j] != 0
}

/// Reachability only grows when entries are added to the matrix.
pub proof fn lemma_connects_monotone(m1: Seq<Seq<u64>>, m2: Seq<Seq<u64>>, a: int, b: int)
    requires
        connects(m1, a, b),
        keeps_edges(m1, m2),
    ensures
        connects(m2, a, b),
{
    let p = choose|p: Seq<int>| is_walk(m1, p) && p.first() == a && p.last() == b;
    assert(is_walk(m2, p)) by {
        assert(forall|k: int| 0 <= k < p.len() - 1 ==> step_ok(m1, #[trigger] p[k], p[k + 1]));
    }
}

/// A vertex reaches itself by the one-vertex walk.
pub proof fn lemma_connects_refl(m: Seq<Seq<u64>>, a: int)
    requires
        0 <= a < m.len(),
    ensures
        connects(m, a, a),
{
    let p = seq![a];
    assert(is_walk(m, p) && p.first() == a && p.last() == a);
}

/// Walking the edges backwards connects the endpoints the other way round.
pub proof fn lemma_connects_sym(m: Seq<Seq<u64>>, a: int, b: int)
    requires
        connects(m, a, b),
    ensures
        connects(m, b, a),
{
    let p = choose|p: Seq<int>| is_walk(m, p) && p.first() == a && p.last() == b;
    let r = Seq::new(p.len(), |k: int| p[p.len() - 1 - k]);
    assert(is_walk(m, r)) by {
        assert forall|k: int| 0 <= k < r.len() - 1 implies step_ok(m, #[trigger] r[k], r[k + 1]) by {
            assert(step_ok(m, p[p.len() - 2 - k], p[p.len() - 1 - k]));
        }
    }
    assert(r.first() == b && r.last() == a);
}

/// Chaining two walks connects the outer endpoints.
pub proof fn lemma_connects_trans(m: Seq<Seq<u64>>, a: int, b: int, c: int)
    requires
        connects(m, a, b),
        connects(m, b, c),
    ensures
        connects(m, a, c),
{
    let p1 = choose|p: Seq<int>| is_walk(m, p) && p.first() == a && p.last() == b;
    let p2 = choose|p: Seq<int>| is_walk(m, p) && p.first() == b && p.last() == c;
    let q = p1 + p2.drop_first();
    assert(q.first() == a);
    if p2.len() == 1 {
        assert(q =~= p1);
        assert(is_walk(m, q) && q.last() == c);
    } else {
        assert(q.last() == p2[p2.len() - 1]);
        assert(is_walk(m, q)) by {
            assert forall|k: int| 0 <= k < q.len() - 1 implies step_ok(m, #[trigger] q[k], q[k + 1])
                by {
                if k < p1.len() - 1 {
                    assert(q[k] == p1[k] && q[k + 1] == p1[k + 1]);
                } else if k == p1.len() - 1 {
                    assert(q[k] == p1[p1.len() - 1] && q[k + 1] == p2[1]);
                    assert(step_ok(m, p2[0], p2[1]));
                } else {
                    assert(q[k] == p2[k - p1.len() + 1] && q[k + 1] == p2[k - p1.len() + 2]);
                    assert(step_ok(m, p2[k - p1.len() + 1], p2[k - p1.len() + 2]));
                }
            }
            assert(forall|k: int| 0 <= k < q.len() ==> 0 <= #[trigger] q[k] < m.len());
        }
    }
}

/// A walk from inside a cut to outside it steps over the cut somewhere.
pub proof fn lemma_walk_crosses_cut(m: Seq<Seq<u64>>, p: Seq<int>, s: Set<int>)
    requires
        is_walk(m, p),
        s.contains(p.first()),
        !s.contains(p.last()),
    ensures
        exists|k: int|
            0 <= k < p.len() - 1 && s.contains(#[trigger] p[k]) && !s.contains(p[k + 1]),
    decreases p.len(),
{
    if !s.contains(p[1]) {
        let k: int = 0;
        assert(s.contains(p[k]) && !s.contains(p[k + 1]));
    } else {
        let q = p.drop_first();
        assert(is_walk(m, q)) by {
            assert forall|k: int| 0 <= k < q.len() - 1 implies step_ok(m, #[trigger] q[k], q[k + 1])
                by {
                assert(step_ok(m, p[k + 1], p[k + 2]));
            }
        }
        lemma_walk_crosses_cut(m, q, s);
        let k = choose|k: int|
            0 <= k < q.len() - 1 && s.contains(#[trigger] q[k]) && !s.contains(q[k + 1]);
        assert(s.contains(p[k + 1]) && !s.contains(p[k + 1 + 1]));
    }
}

/// The deep view of a matrix is its sequence of row views.
pub proof fn lemma_matrix_view(g: &Vec<Vec<u64>>)
    ensures
        g.deep_view().len() == g@.len(),
        forall|i: int| 0 <= i < g@.len() ==> #[trigger] g.deep_view()[i] == g@[i]@,
{
    assert forall|i: int| 0 <= i < g@.len() implies #[trigger] g.deep_view()[i] == g@[i]@ by {
        assert(g.deep_view()[i] =~= g@[i]@);
    }
}

/// The errors the components report: malformed input and violated
/// preconditions, each surfaced as its own variant.
#[derive(Clone, Copy, Debug, PartialEq, Eq, Structural)]
pub enum TspError {
    /// Some row's length differs from the number of rows.
    NotSquare,
    /// A diagonal entry is not zero.
    NonZeroDiagonal,
    /// Fewer than two vertices.
    TooFewVertices,
    /// The graph does not connect all its vertices.
    Disconnected,
    /// A path names a vertex outside the matrix.
    IndexOutOfRange,
    /// A path is too short or too long to evaluate.
    BadPathLength,
}

/// Rejects a malformed matrix before any algorithm runs: accepts exactly the
/// square matrices with a zero diagonal.
pub fn validate_graph(g: &Vec<Vec<u64>>) -> (r: Result<(), TspError>)
    ensures
        r is Ok <==> valid_graph(g.deep_view()),
        r is Err ==> (r == Err::<(), TspError>(TspError::NotSquare) <==> !is_square(g.deep_view())),
        r is Err ==> r == Err::<(), TspError>(TspError::NotSquare) || r == Err::<(), TspError>(
            TspError::NonZeroDiagonal,
        ),
{
    let n = g.len();
    let mut i: usize = 0;
    while i < n
        invariant
            0 <= i <= n,
            n == g.deep_view().len(),
            forall|k: int| 0 <= k < i ==> #[trigger] g.deep_view()[k].len() == n,
        decreases n - i,
    {
        proof {
            lemma_matrix_view(g);
        }
        if g[i].len() != n {
            proof {
                assert(g.deep_view()[i as int].len() != g.deep_view().len());
                assert(!is_square(g.deep_view()));
            }
            return Err(TspError::NotSquare);
        }
        i = i + 1;
    }
    assert(is_square(g.deep_view()));
    let mut i: usize = 0;
    while i < n
        invariant
            0 <= i <= n,
            n == g.deep_view().len(),
            is_square(g.deep_view()),
            forall|k: int| 0 <= k < i ==> #[trigger] g.deep_view()[k][k] == 0,
        decreases n - i,
    {
        proof {
            lemma_matrix_view(g);
            assert(g.deep_view()[i as int].len() == n);
            assert(i < g@[i as int]@.len());
        }
        if g[i][i] != 0 {
            proof {
                assert(g.deep_view()[i as int][i as int] != 0);
                assert(!zero_diagonal(g.deep_view()));
            }
            return Err(TspError::NonZeroDiagonal);
        }
        i = i + 1;
    }
    Ok(())
}

} // verus!
