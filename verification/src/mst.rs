//! The minimum-spanning-tree builder (Prim's algorithm over the candidate
//! edges of the upper triangle) and the multigraph doubler that mirrors every
//! tree edge so each vertex gets even degree.

use vstd::prelude::*;

use crate::graph::crossing_edge;
use crate::graph::cut_connected;
use crate::graph::connects;
use crate::graph::is_square;
use crate::graph::is_walk;
use crate::graph::keeps_edges;
use crate::graph::lemma_connects_monotone;
use crate::graph::lemma_connects_refl;
use crate::graph::lemma_connects_sym;
use crate::graph::lemma_connects_trans;
use crate::graph::lemma_matrix_view;
use crate::graph::lemma_walk_crosses_cut;
use crate::graph::pair_edge;
use crate::graph::proper_cut;
use crate::graph::step_ok;
use crate::graph::zero_diagonal;
use crate::graph::TspError;

verus! {

/// How many of the first `j` entries of row `r` are non-zero.
pub open spec fn row_nonzero_upto(m: Seq<Seq<u64>>, r: int, j: int) -> int
    decreases j,
{
    if j <= 0 {
        0
    } else {
        row_nonzero_upto(m, r, j - 1) + if m[r][j - 1] != 0 {
            1int
        } else {
            0int
        }
    }
}

/// How many of the first `i` entries of column `v` are non-zero.
pub open spec fn col_nonzero_upto(m: Seq<Seq<u64>>, v: int, i: int) -> int
    decreases i,
{
    if i <= 0 {
        0
    } else {
        col_nonzero_upto(m, v, i - 1) + if m[i - 1][v] != 0 {
            1int
        } else {
            0int
        }
    }
}

/// The non-zero entries of the first `i` rows, each row read up to column `j`.
pub open spec fn row_total(m: Seq<Seq<u64>>, i: int, j: int) -> int
    decreases i,
{
    if i <= 0 {
        0
    } else {
        row_total(m, i - 1, j) + row_nonzero_upto(m, i - 1, j)
    }
}

/// The non-zero entries of the first `k` columns, each column read up to row `i`.
pub open spec fn col_total(m: Seq<Seq<u64>>, k: int, i: int) -> int
    decreases k,
{
    if k <= 0 {
        0
    } else {
        col_total(m, k - 1, i) + col_nonzero_upto(m, k - 1, i)
    }
}

/// How many edges the matrix stores: its non-zero entries.
pub open spec fn nonzero_count(m: Seq<Seq<u64>>) -> int {
    row_total(m, m.len() as int, m.len() as int)
}

/// The degree of vertex `v` in the multigraph the matrix describes: one edge
/// end per non-zero entry in its row and in its column.
pub open spec fn degree(m: Seq<Seq<u64>>, v: int) -> int {
    row_nonzero_upto(m, v, m.len() as int) + col_nonzero_upto(m, v, m.len() as int)
}

/// A row prefix over entries of equal zeroness counts alike.
proof fn lemma_row_upto_agree(m1: Seq<Seq<u64>>, m2: Seq<Seq<u64>>, r: int, j: int)
    requires
        forall|k: int| 0 <= k < j ==> ((#[trigger] m1[r][k] != 0) <==> m2[r][k] != 0),
    ensures
        row_nonzero_upto(m1, r, j) == row_nonzero_upto(m2, r, j),
    decreases j,
{
    if j > 0 {
        lemma_row_upto_agree(m1, m2, r, j - 1);
    }
}

/// Turning the one entry at column `c` from zero to non-zero raises the row
/// count by one.
proof fn lemma_row_upto_bump(m1: Seq<Seq<u64>>, m2: Seq<Seq<u64>>, r: int, j: int, c: int)
    requires
        0 <= c < j,
        m1[r][c] == 0,
        m2[r][c] != 0,
        forall|k: int| 0 <= k < j && k != c ==> ((#[trigger] m1[r][k] != 0) <==> m2[r][k] != 0),
    ensures
        row_nonzero_upto(m2, r, j) == row_nonzero_upto(m1, r, j) + 1,
    decreases j,
{
    if c == j - 1 {
        lemma_row_upto_agree(m1, m2, r, j - 1);
    } else {
        lemma_row_upto_bump(m1, m2, r, j - 1, c);
    }
}

/// Turning one zero entry non-zero raises the whole count by one.
proof fn lemma_total_bump(m1: Seq<Seq<u64>>, m2: Seq<Seq<u64>>, i: int, j: int, r: int, c: int)
    requires
        0 <= r,
        0 <= c < j,
        m1[r][c] == 0,
        m2[r][c] != 0,
        forall|x: int, k: int|
            0 <= x < i && 0 <= k < j && !(x == r && k == c) ==> ((#[trigger] m1[x][k] != 0)
                <==> m2[x][k] != 0),
    ensures
        r < i ==> row_total(m2, i, j) == row_total(m1, i, j) + 1,
        r >= i ==> row_total(m2, i, j) == row_total(m1, i, j),
    decreases i,
{
    if i > 0 {
        lemma_total_bump(m1, m2, i - 1, j, r, c);
        if i - 1 == r {
            lemma_row_upto_bump(m1, m2, r, j, c);
        } else {
            lemma_row_upto_agree(m1, m2, i - 1, j);
        }
    }
}

/// Nothing sits in the first zero rows of any column.
proof fn lemma_col_total_zero(m: Seq<Seq<u64>>, k: int)
    ensures
        col_total(m, k, 0) == 0,
    decreases k,
{
    if k > 0 {
        lemma_col_total_zero(m, k - 1);
    }
}

/// Reading one more row adds that row's prefix count to the column totals.
proof fn lemma_col_total_step(m: Seq<Seq<u64>>, k: int, i: int)
    requires
        i >= 1,
    ensures
        col_total(m, k, i) == col_total(m, k, i - 1) + row_nonzero_upto(m, i - 1, k),
    decreases k,
{
    if k > 0 {
        lemma_col_total_step(m, k - 1, i);
    }
}

/// Counting by columns and counting by rows agree.
proof fn lemma_count_by_columns(m: Seq<Seq<u64>>, k: int, i: int)
    requires
        i >= 0,
    ensures
        col_total(m, k, i) == row_total(m, i, k),
    decreases i,
{
    if i == 0 {
        lemma_col_total_zero(m, k);
    } else {
        lemma_count_by_columns(m, k, i - 1);
        lemma_col_total_step(m, k, i);
    }
}

/// The tree shape of the built matrix: every vertex but the root hangs on a
/// parent of strictly smaller attachment rank over an existing edge, and
/// every stored edge joins a vertex with its parent. This is what the growth
/// of the tree one leaf at a time leaves behind, and it rules out cycles.
pub open spec fn grown_tree(
    md: Seq<Seq<u64>>,
    root: int,
    parent: Map<int, int>,
    rank: Map<int, int>,
) -> bool {
    &&& 0 <= root < md.len()
    &&& rank[root] == 0
    &&& forall|v: int| 0 <= v < md.len() ==> 0 <= #[trigger] rank[v] < md.len()
    &&& forall|v: int|
        0 <= v < md.len() && v != root ==> {
            &&& 0 <= #[trigger] parent[v] < md.len()
            &&& step_ok(md, v, parent[v])
            &&& rank[parent[v]] < rank[v]
        }
    &&& forall|i: int, j: int|
        0 <= i < md.len() && 0 <= j < md.len() && #[trigger] md[i][j] != 0 ==> ((i != root
            && parent[i] == j) || (j != root && parent[j] == i))
}

/// Every stored tree entry is an upper-triangle edge of the graph, with the
/// graph's own weight.
pub open spec fn tree_edges_from(g: Seq<Seq<u64>>, m: Seq<Seq<u64>>) -> bool {
    forall|i: int, j: int|
        0 <= i < m.len() && 0 <= j < m.len() && #[trigger] m[i][j] != 0 ==> i < j && m[i][j]
            == g[i][j]
}

/// The vertices marked visited.
pub open spec fn visited_set(vis: Seq<bool>) -> Set<int> {
    Set::new(|x: int| 0 <= x < vis.len() && vis[x])
}

/// Scans the upper triangle for the lightest edge of the graph; `None` means
/// the graph stores no edge at all. A tie keeps the first pair scanned.
fn find_min_edge(graph: &Vec<Vec<u64>>) -> (r: Option<(usize, usize)>)
    requires
        is_square(graph.deep_view()),
    ensures
        r matches Some(p) ==> pair_edge(graph.deep_view(), p.0 as int, p.1 as int) && (forall|
            x: int,
            y: int,
        |
            #[trigger] pair_edge(graph.deep_view(), x, y) ==> graph.deep_view()[p.0 as int][p.1 as int]
                <= graph.deep_view()[x][y]),
        r is None ==> forall|x: int, y: int| !pair_edge(graph.deep_view(), x, y),
{
    let ghost g = graph.deep_view();
    let n = graph.len();
    let mut best: Option<(usize, usize)> = None;
    let mut bw: u64 = 0;
    let mut i: usize = 0;
    while i < n
        invariant
            0 <= i <= n,
            n == g.len(),
            g == graph.deep_view(),
            is_square(g),
            best matches Some(p) ==> pair_edge(g, p.0 as int, p.1 as int) && bw
                == g[p.0 as int][p.1 as int],
            best matches Some(p) ==> forall|x: int, y: int|
                0 <= x < i && x < y < n && #[trigger] g[x][y] != 0 ==> bw <= g[x][y],
            best is None ==> forall|x: int, y: int| 0 <= x < i && x < y < n ==> g[x][y] == 0,
        decreases n - i,
    {
        let mut j: usize = i + 1;
        while j < n
            invariant
                0 <= i < n,
                i < j <= n,
                n == g.len(),
                g == graph.deep_view(),
                is_square(g),
                best matches Some(p) ==> pair_edge(g, p.0 as int, p.1 as int) && bw
                    == g[p.0 as int][p.1 as int],
                best matches Some(p) ==> forall|x: int, y: int|
                    0 <= x < i && x < y < n && #[trigger] g[x][y] != 0 ==> bw <= g[x][y],
                best matches Some(p) ==> forall|y: int|
                    i < y < j && #[trigger] g[i as int][y] != 0 ==> bw <= g[i as int][y],
                best is None ==> forall|x: int, y: int| 0 <= x < i && x < y < n ==> g[x][y] == 0,
                best is None ==> forall|y: int| i < y < j ==> g[i as int][y] == 0,
            decreases n - j,
        {
            proof {
                lemma_matrix_view(graph);
                assert(g[i as int].len() == n);
            }
            let w = graph[i][j];
            if w != 0 && (best.is_none() || w < bw) {
                best = Some((i, j));
                bw = w;
            }
            j = j + 1;
        }
        i = i + 1;
    }
    proof {
        if best is None {
            assert forall|x: int, y: int| !pair_edge(g, x, y) by {
                if 0 <= x < y < g.len() {
                    assert(g[x][y] == 0);
                }
            }
        }
    }
    best
}

/// Scans the upper triangle for the lightest edge with exactly one endpoint
/// visited; `None` means no edge crosses out of the visited set. A tie keeps
/// the first pair scanned.
fn find_min_crossing_edge(graph: &Vec<Vec<u64>>, visited: &Vec<bool>) -> (r: Option<
    (usize, usize),
>)
    requires
        is_square(graph.deep_view()),
        visited@.len() == graph.deep_view().len(),
    ensures
        r matches Some(p) ==> pair_edge(graph.deep_view(), p.0 as int, p.1 as int) && (
        visited@[p.0 as int] != visited@[p.1 as int]) && (forall|x: int, y: int|
            #[trigger] pair_edge(graph.deep_view(), x, y) && visited@[x] != visited@[y]
                ==> graph.deep_view()[p.0 as int][p.1 as int] <= graph.deep_view()[x][y]),
        r is None ==> forall|x: int, y: int|
            pair_edge(graph.deep_view(), x, y) ==> visited@[x] == visited@[y],
{
    let ghost g = graph.deep_view();
    let n = graph.len();
    let mut best: Option<(usize, usize)> = None;
    let mut bw: u64 = 0;
    let mut i: usize = 0;
    while i < n
        invariant
            0 <= i <= n,
            n == g.len(),
            g == graph.deep_view(),
            is_square(g),
            visited@.len() == n,
            best matches Some(p) ==> pair_edge(g, p.0 as int, p.1 as int) && (visited@[p.0 as int]
                != visited@[p.1 as int]) && bw == g[p.0 as int][p.1 as int],
            best matches Some(p) ==> forall|x: int, y: int|
                0 <= x < i && x < y < n && #[trigger] g[x][y] != 0 && visited@[x] != visited@[y]
                    ==> bw <= g[x][y],
            best is None ==> forall|x: int, y: int|
                0 <= x < i && x < y < n && g[x][y] != 0 ==> visited@[x] == visited@[y],
        decreases n - i,
    {
        let mut j: usize = i + 1;
        while j < n
            invariant
                0 <= i < n,
                i < j <= n,
                n == g.len(),
                g == graph.deep_view(),
                is_square(g),
                visited@.len() == n,
                best matches Some(p) ==> pair_edge(g, p.0 as int, p.1 as int) && (
                visited@[p.0 as int] != visited@[p.1 as int]) && bw == g[p.0 as int][p.1 as int],
                best matches Some(p) ==> forall|x: int, y: int|
                    0 <= x < i && x < y < n && #[trigger] g[x][y] != 0 && visited@[x]
                        != visited@[y] ==> bw <= g[x][y],
                best matches Some(p) ==> forall|y: int|
                    i < y < j && #[trigger] g[i as int][y] != 0 && visited@[i as int] != visited@[y]
                        ==> bw <= g[i as int][y],
                best is None ==> forall|x: int, y: int|
                    0 <= x < i && x < y < n && g[x][y] != 0 ==> visited@[x] == visited@[y],
                best is None ==> forall|y: int|
                    i < y < j && g[i as int][y] != 0 ==> visited@[i as int] == visited@[y],
            decreases n - j,
        {
            proof {
                lemma_matrix_view(graph);
                assert(g[i as int].len() == n);
            }
            let w = graph[i][j];
            let crossing = (visited[i] && !visited[j]) || (!visited[i] && visited[j]);
            if w != 0 && crossing && (best.is_none() || w < bw) {
                best = Some((i, j));
                bw = w;
            }
            j = j + 1;
        }
        i = i + 1;
    }
    proof {
        if best is None {
            assert forall|x: int, y: int| pair_edge(g, x, y) implies visited@[x] == visited@[y] by {
                assert(0 <= x < y < g.len() && g[x][y] != 0);
            }
        }
    }
    best
}

/// Each undirected edge is stored in one direction only, as the tree builder
/// leaves it: the entry of the opposite direction is zero. In particular the
/// diagonal is zero.
pub open spec fn one_directional(m: Seq<Seq<u64>>) -> bool {
    forall|i: int, j: int|
        0 <= i < m.len() && 0 <= j < m.len() && #[trigger] m[i][j] != 0 ==> m[j][i] == 0
}

/// `d` is `m` with every stored edge mirrored: each entry keeps its weight
/// and the opposite direction receives the same weight.
pub open spec fn is_doubled(m: Seq<Seq<u64>>, d: Seq<Seq<u64>>) -> bool {
    &&& d.len() == m.len()
    &&& is_square(d)
    &&& forall|i: int, j: int|
        0 <= i < m.len() && 0 <= j < m.len() ==> #[trigger] d[i][j] == (if m[i][j] != 0 {
            m[i][j]
        } else {
            m[j][i]
        })
}

/// In a row-column symmetric matrix every row prefix counts like the same
/// column prefix.
proof fn lemma_sym_row_col(d: Seq<Seq<u64>>, v: int, j: int)
    requires
        0 <= v < d.len(),
        j <= d.len(),
        forall|i: int, k: int|
            0 <= i < d.len() && 0 <= k < d.len() ==> #[trigger] d[i][k] == d[k][i],
    ensures
        row_nonzero_upto(d, v, j) == col_nonzero_upto(d, v, j),
    decreases j,
{
    if j > 0 {
        lemma_sym_row_col(d, v, j - 1);
        assert(d[v][j - 1] == d[j - 1][v]);
    }
}

/// A doubled row counts the original row plus the original column.
proof fn lemma_doubled_row_split(m: Seq<Seq<u64>>, d: Seq<Seq<u64>>, r: int, j: int)
    requires
        is_square(m),
        one_directional(m),
        is_doubled(m, d),
        0 <= r < m.len(),
        j <= m.len(),
    ensures
        row_nonzero_upto(d, r, j) == row_nonzero_upto(m, r, j) + col_nonzero_upto(m, r, j),
    decreases j,
{
    if j > 0 {
        lemma_doubled_row_split(m, d, r, j - 1);
        assert(d[r][j - 1] == (if m[r][j - 1] != 0 {
            m[r][j - 1]
        } else {
            m[j - 1][r]
        }));
    }
}

/// The doubled totals split the same way, row by row.
proof fn lemma_doubled_total_split(m: Seq<Seq<u64>>, d: Seq<Seq<u64>>, i: int)
    requires
        is_square(m),
        one_directional(m),
        is_doubled(m, d),
        0 <= i <= m.len(),
    ensures
        row_total(d, i, m.len() as int) == row_total(m, i, m.len() as int) + col_total(
            m,
            i,
            m.len() as int,
        ),
    decreases i,
{
    if i > 0 {
        lemma_doubled_total_split(m, d, i - 1);
        lemma_doubled_row_split(m, d, i - 1, m.len() as int);
        assert(col_total(m, i, m.len() as int) == col_total(m, i - 1, m.len() as int)
            + col_nonzero_upto(m, i - 1, m.len() as int));
    }
}

/// Law: mirroring the tree's edges gives every vertex an even degree and
/// exactly doubles the number of stored edges.
pub proof fn lemma_doubling_even_and_twice(m: Seq<Seq<u64>>, d: Seq<Seq<u64>>)
    requires
        is_square(m),
        one_directional(m),
        is_doubled(m, d),
    ensures
        forall|v: int|
            0 <= v < d.len() ==> #[trigger] degree(d, v) == 2 * row_nonzero_upto(
                d,
                v,
                d.len() as int,
            ),
        forall|v: int| 0 <= v < d.len() ==> #[trigger] degree(d, v) % 2 == 0,
        nonzero_count(d) == 2 * nonzero_count(m),
{
    let n = m.len() as int;
    assert forall|i: int, k: int|
        0 <= i < d.len() && 0 <= k < d.len() implies #[trigger] d[i][k] == d[k][i] by {
        if m[i][k] != 0 {
            assert(m[k][i] == 0);
        }
    }
    assert forall|v: int| 0 <= v < d.len() implies #[trigger] degree(d, v) == 2
        * row_nonzero_upto(d, v, d.len() as int) by {
        lemma_sym_row_col(d, v, n);
    }
    lemma_doubled_total_split(m, d, n);
    lemma_count_by_columns(m, n, n);
}

/// Copies a row of weights.
fn copy_row(src: &Vec<u64>) -> (r: Vec<u64>)
    ensures
        r@ == src@,
{
    let mut r: Vec<u64> = Vec::new();
    let mut k: usize = 0;
    while k < src.len()
        invariant
            0 <= k <= src@.len(),
            r@ == src@.take(k as int),
        decreases src@.len() - k,
    {
        r.push(src[k]);
        proof {
            assert(r@ =~= src@.take(k + 1));
        }
        k = k + 1;
    }
    proof {
        assert(src@.take(src@.len() as int) =~= src@);
    }
    r
}

/// Writes one entry of the matrix, leaving everything else in place.
fn matrix_set(m: &mut Vec<Vec<u64>>, i: usize, j: usize, w: u64)
    requires
        i < old(m)@.len(),
        j < old(m)@[i as int]@.len(),
    ensures
        final(m)@.len() == old(m)@.len(),
        forall|x: int| 0 <= x < old(m)@.len() && x != i ==> #[trigger] final(m)@[x] == old(m)@[x],
        final(m)@[i as int]@ == old(m)@[i as int]@.update(j as int, w),
{
    let mut row = copy_row(&m[i]);
    row.set(j, w);
    m.set(i, row);
}

/// The doubled matrix keeps the tree shape: it stores the same edges, both
/// ways round.
pub proof fn lemma_grown_tree_doubled(
    md: Seq<Seq<u64>>,
    dm: Seq<Seq<u64>>,
    root: int,
    parent: Map<int, int>,
    rank: Map<int, int>,
)
    requires
        is_square(md),
        is_doubled(md, dm),
        grown_tree(md, root, parent, rank),
    ensures
        grown_tree(dm, root, parent, rank),
{
    assert forall|v: int| 0 <= v < dm.len() && v != root implies {
        &&& 0 <= #[trigger] parent[v] < dm.len()
        &&& step_ok(dm, v, parent[v])
        &&& rank[parent[v]] < rank[v]
    } by {
        assert(step_ok(md, v, parent[v]));
        if md[v][parent[v]] != 0 {
            assert(dm[v][parent[v]] == md[v][parent[v]]);
        } else {
            assert(dm[parent[v]][v] == md[parent[v]][v]);
        }
    }
    assert forall|i: int, j: int|
        0 <= i < dm.len() && 0 <= j < dm.len() && #[trigger] dm[i][j] != 0 implies ((i != root
            && parent[i] == j) || (j != root && parent[j] == i)) by {
        assert(md[i][j] != 0 || md[j][i] != 0);
    }
}

/// Mirrors every stored tree edge into the opposite direction, leaving its
/// weight unchanged: the multigraph in which each vertex has even degree.
pub fn mst_to_multigraph(mst: Vec<Vec<u64>>) -> (r: Vec<Vec<u64>>)
    requires
        is_square(mst.deep_view()),
    ensures
        is_doubled(mst.deep_view(), r.deep_view()),
{
    let ghost m = mst.deep_view();
    proof {
        lemma_matrix_view(&mst);
    }
    let n = mst.len();
    let mut out: Vec<Vec<u64>> = Vec::new();
    let mut i: usize = 0;
    while i < n
        invariant
            0 <= i <= n,
            n == m.len(),
            m == mst.deep_view(),
            is_square(m),
            out.deep_view().len() == i,
            forall|x: int| 0 <= x < i ==> #[trigger] out.deep_view()[x].len() == n,
            forall|x: int, y: int|
                0 <= x < i && 0 <= y < n ==> #[trigger] out.deep_view()[x][y] == (if m[x][y] != 0 {
                    m[x][y]
                } else {
                    m[y][x]
                }),
        decreases n - i,
    {
        let mut row: Vec<u64> = Vec::new();
        let mut j: usize = 0;
        while j < n
            invariant
                0 <= j <= n,
                0 <= i < n,
                n == m.len(),
                m == mst.deep_view(),
                is_square(m),
                row@.len() == j,
                forall|y: int|
                    0 <= y < j ==> #[trigger] row@[y] == (if m[i as int][y] != 0 {
                        m[i as int][y]
                    } else {
                        m[y][i as int]
                    }),
            decreases n - j,
        {
            proof {
                lemma_matrix_view(&mst);
                assert(m[i as int].len() == n);
                assert(m[j as int].len() == n);
                assert(m[i as int] == mst@[i as int]@);
                assert(m[j as int] == mst@[j as int]@);
            }
            let w = if mst[i][j] != 0 {
                mst[i][j]
            } else {
                mst[j][i]
            };
            row.push(w);
            j = j + 1;
        }
        let ghost prevd = out.deep_view();
        let ghost prevv = out@;
        proof {
            lemma_matrix_view(&out);
            assert(forall|x: int| 0 <= x < i ==> #[trigger] prevd[x] == prevv[x]@);
        }
        out.push(row);
        proof {
            lemma_matrix_view(&out);
            assert(out@ == prevv.push(row));
            assert forall|x: int| 0 <= x <= i implies #[trigger] out.deep_view()[x] == (if x < i {
                prevd[x]
            } else {
                row@
            }) by {
                assert(out.deep_view()[x] == out@[x]@);
            }
        }
        i = i + 1;
    }
    proof {
        assert(is_doubled(m, out.deep_view()));
    }
    out
}

/// Builds a spanning tree of the graph by Prim's rule: start from the
/// lightest edge, then repeatedly take the lightest edge with exactly one
/// endpoint in the tree (a tie keeps the pair scanned first), until all `n`
/// vertices hang together on `n - 1` stored edges. A graph with fewer than
/// two vertices and a graph whose vertices do not all hang together are each
/// rejected with their own error.
pub fn prim_mst(graph: &Vec<Vec<u64>>) -> (r: Result<Vec<Vec<u64>>, TspError>)
    requires
        is_square(graph.deep_view()),
    ensures
        r matches Ok(m) ==> ({
            let md = m.deep_view();
            let g = graph.deep_view();
            &&& md.len() == g.len()
            &&& is_square(md)
            &&& zero_diagonal(md)
            &&& one_directional(md)
            &&& tree_edges_from(g, md)
            &&& nonzero_count(md) == g.len() - 1
            &&& forall|u: int, v: int|
                0 <= u < md.len() && 0 <= v < md.len() ==> #[trigger] connects(md, u, v)
            &&& exists|root: int, parent: Map<int, int>, rank: Map<int, int>|
                grown_tree(md, root, parent, rank)
        }),
        r == Err::<Vec<Vec<u64>>, TspError>(TspError::TooFewVertices) <==> graph.deep_view().len()
            < 2,
        graph.deep_view().len() >= 2 ==> (r == Err::<Vec<Vec<u64>>, TspError>(
            TspError::Disconnected,
        ) <==> !cut_connected(graph.deep_view())),
        r is Ok <==> (graph.deep_view().len() >= 2 && cut_connected(graph.deep_view())),
{
    broadcast use vstd::set::group_set_axioms;

    let ghost g = graph.deep_view();
    let n = graph.len();
    if n < 2 {
        return Err(TspError::TooFewVertices);
    }
    // the all-zero n-by-n matrix that will carry the tree
    let mut mst: Vec<Vec<u64>> = Vec::new();
    let mut i: usize = 0;
    while i < n
        invariant
            0 <= i <= n,
            mst.deep_view().len() == i,
            forall|x: int| 0 <= x < i ==> #[trigger] mst.deep_view()[x].len() == n,
            forall|x: int, y: int|
                0 <= x < i && 0 <= y < n ==> #[trigger] mst.deep_view()[x][y] == 0,
        decreases n - i,
    {
        let row: Vec<u64> = vec![0u64; n];
        let ghost prevd = mst.deep_view();
        let ghost prevv = mst@;
        proof {
            lemma_matrix_view(&mst);
            assert(forall|x: int| 0 <= x < i ==> #[trigger] prevd[x] == prevv[x]@);
        }
        mst.push(row);
        proof {
            lemma_matrix_view(&mst);
            assert(mst@ == prevv.push(row));
            assert forall|x: int| 0 <= x <= i implies #[trigger] mst.deep_view()[x] == (if x < i {
                prevd[x]
            } else {
                row@
            }) by {
                assert(mst.deep_view()[x] == mst@[x]@);
            }
        }
        i = i + 1;
    }
    let mut visited: Vec<bool> = vec![false; n];
    proof {
        assert(visited_set(visited@) =~= Set::<int>::empty());
    }
    // the first tree edge: the lightest edge of the whole graph
    let first = match find_min_edge(graph) {
        Some(p) => p,
        None => {
            proof {
                let s = Set::<int>::empty().insert(0);
                assert(s.contains(0) && !s.contains(1));
                assert(proper_cut(g, s));
                assert(!crossing_edge(g, s));
            }
            return Err(TspError::Disconnected);
        },
    };
    let (fi, fj) = first;
    proof {
        lemma_matrix_view(graph);
        assert(g[fi as int].len() == n);
    }
    let w0 = graph[fi][fj];
    let ghost prevd = mst.deep_view();
    let ghost prevv = mst@;
    proof {
        lemma_matrix_view(&mst);
        assert forall|x: int| 0 <= x < n implies #[trigger] prevd[x] == prevv[x]@ && prevd[x].len()
            == n by {
            assert(mst.deep_view()[x] == mst@[x]@);
            assert(mst.deep_view()[x].len() == n);
        }
        assert(prevd[fi as int] == prevv[fi as int]@ && prevd[fi as int].len() == n);
        assert(prevv[fi as int]@.len() == n);
    }
    matrix_set(&mut mst, fi, fj, w0);
    proof {
        lemma_matrix_view(&mst);
        assert forall|x: int, y: int| 0 <= x < n && 0 <= y < n implies #[trigger] mst.deep_view(
        )[x][y] == (if x == fi && y == fj {
            w0
        } else {
            prevd[x][y]
        }) by {
            assert(prevd[x] == prevv[x]@ && prevd[x].len() == n);
            assert(mst.deep_view()[x] == mst@[x]@);
            if x != fi {
                assert(mst@[x] == prevv[x]);
            } else {
                assert(mst@[x]@ == prevv[x]@.update(fj as int, w0));
            }
        }
        assert(mst.deep_view().len() == n);
        assert forall|x: int| 0 <= x < n implies #[trigger] mst.deep_view()[x].len() == n by {
            assert(prevd[x] == prevv[x]@ && prevd[x].len() == n);
            assert(mst.deep_view()[x] == mst@[x]@);
            if x != fi {
                assert(mst@[x] == prevv[x]);
            } else {
                assert(mst@[x]@ == prevv[x]@.update(fj as int, w0));
            }
        }
        lemma_total_bump(prevd, mst.deep_view(), n as int, n as int, fi as int, fj as int);
        assert(row_total(prevd, n as int, n as int) == 0) by {
            lemma_zero_matrix_count(prevd, n as int, n as int);
        }
    }
    let ghost mut parent: Map<int, int> = Map::empty();
    let ghost mut rank: Map<int, int> = Map::empty();
    proof {
        rank = rank.insert(fi as int, 0);
        rank = rank.insert(fj as int, 1);
        parent = parent.insert(fj as int, fi as int);
    }
    let ghost s0 = visited_set(visited@);
    visited.set(fi, true);
    proof {
        assert(visited_set(visited@) =~= s0.insert(fi as int));
    }
    let ghost s1 = visited_set(visited@);
    visited.set(fj, true);
    proof {
        assert(visited_set(visited@) =~= s1.insert(fj as int));
        assert(s0.len() == 0 && s0.finite());
        assert(visited_set(visited@).len() == 2);
    }
    let mut edges: usize = 1;
    proof {
        let md = mst.deep_view();
        assert forall|u: int, v: int|
            visited_set(visited@).contains(u) && visited_set(visited@).contains(v) implies
            #[trigger] connects(md, u, v) by {
            assert(step_ok(md, fi as int, fj as int));
            if u == v {
                lemma_connects_refl(md, u);
            } else {
                let p = seq![fi as int, fj as int];
                assert(is_walk(md, p) && p.first() == fi as int && p.last() == fj as int);
                assert(connects(md, fi as int, fj as int));
                lemma_connects_sym(md, fi as int, fj as int);
            }
        }
    }
    while edges < n - 1
        invariant
            2 <= n == g.len(),
            g == graph.deep_view(),
            is_square(g),
            1 <= edges <= n - 1,
            visited@.len() == n,
            visited@[fi as int],
            0 <= fi < n,
            mst.deep_view().len() == n,
            forall|x: int| 0 <= x < n ==> #[trigger] mst.deep_view()[x].len() == n,
            tree_edges_from(g, mst.deep_view()),
            forall|x: int, y: int|
                0 <= x < n && 0 <= y < n && #[trigger] mst.deep_view()[x][y] != 0
                    ==> visited@[x] && visited@[y],
            nonzero_count(mst.deep_view()) == edges as int,
            visited_set(visited@).finite(),
            visited_set(visited@).len() == edges + 1,
            forall|u: int, v: int|
                visited_set(visited@).contains(u) && visited_set(visited@).contains(v)
                    ==> #[trigger] connects(mst.deep_view(), u, v),
            rank[fi as int] == 0,
            forall|v: int|
                visited_set(visited@).contains(v) ==> 0 <= #[trigger] rank[v] <= edges,
            forall|v: int|
                visited_set(visited@).contains(v) && v != fi ==> {
                    &&& visited_set(visited@).contains(#[trigger] parent[v])
                    &&& step_ok(mst.deep_view(), v, parent[v])
                    &&& rank[parent[v]] < rank[v]
                },
            forall|x: int, y: int|
                0 <= x < n && 0 <= y < n && #[trigger] mst.deep_view()[x][y] != 0 ==> ((x != fi
                    && parent[x] == y) || (y != fi && parent[y] == x)),
        decreases n - 1 - edges,
    {
        let ghost md = mst.deep_view();
        let ghost s = visited_set(visited@);
        let next = match find_min_crossing_edge(graph, &visited) {
            Some(p) => p,
            None => {
                proof {
                    assert(s.contains(fi as int));
                    assert(exists|x: int| 0 <= x < n && !s.contains(x)) by {
                        if forall|x: int| 0 <= x < n ==> #[trigger] s.contains(x) {
                            vstd::set_lib::lemma_int_range(0, n as int);
                            assert(vstd::set_lib::set_int_range(0, n as int).subset_of(s));
                            vstd::set_lib::lemma_len_subset(
                                vstd::set_lib::set_int_range(0, n as int),
                                s,
                            );
                        }
                    }
                    assert(proper_cut(g, s));
                    assert(!crossing_edge(g, s)) by {
                        if crossing_edge(g, s) {
                            let (x, y) = choose|x: int, y: int|
                                #[trigger] pair_edge(g, x, y) && (s.contains(x) != s.contains(y));
                            assert(visited@[x] == visited@[y]);
                        }
                    }
                }
                return Err(TspError::Disconnected);
            },
        };
        let (a, b) = next;
        proof {
            lemma_matrix_view(graph);
            assert(g[a as int].len() == n);
        }
        let w = graph[a][b];
        let newv = if visited[a] {
            b
        } else {
            a
        };
        let ghost vi = if visited@[a as int] {
            a as int
        } else {
            b as int
        };
        let ghost prevd = mst.deep_view();
        let ghost prevv = mst@;
        proof {
            lemma_matrix_view(&mst);
            assert forall|x: int| 0 <= x < n implies #[trigger] prevd[x] == prevv[x]@
                && prevd[x].len() == n by {
                assert(mst.deep_view()[x] == mst@[x]@);
                assert(mst.deep_view()[x].len() == n);
            }
            assert(prevd[a as int] == prevv[a as int]@ && prevd[a as int].len() == n);
            assert(prevv[a as int]@.len() == n);
            assert(prevd[a as int][b as int] == 0);
        }
        matrix_set(&mut mst, a, b, w);
        proof {
            lemma_matrix_view(&mst);
            assert forall|x: int, y: int| 0 <= x < n && 0 <= y < n implies #[trigger] mst.deep_view(
            )[x][y] == (if x == a && y == b {
                w
            } else {
                prevd[x][y]
            }) by {
                assert(prevd[x] == prevv[x]@ && prevd[x].len() == n);
                assert(mst.deep_view()[x] == mst@[x]@);
                if x != a {
                    assert(mst@[x] == prevv[x]);
                } else {
                    assert(mst@[x]@ == prevv[x]@.update(b as int, w));
                }
            }
            assert(mst.deep_view().len() == n);
            assert forall|x: int| 0 <= x < n implies #[trigger] mst.deep_view()[x].len() == n by {
                assert(prevd[x] == prevv[x]@ && prevd[x].len() == n);
                assert(mst.deep_view()[x] == mst@[x]@);
                if x != a {
                    assert(mst@[x] == prevv[x]);
                } else {
                    assert(mst@[x]@ == prevv[x]@.update(b as int, w));
                }
            }
            lemma_total_bump(prevd, mst.deep_view(), n as int, n as int, a as int, b as int);
        }
        let ghost sold = visited_set(visited@);
        visited.set(newv, true);
        proof {
            assert(visited_set(visited@) =~= sold.insert(newv as int));
            assert(!sold.contains(newv as int));
            let md2 = mst.deep_view();
            assert(keeps_edges(md, md2));
            let ghost oldparent = parent;
            let ghost oldrank = rank;
            parent = parent.insert(newv as int, vi);
            rank = rank.insert(newv as int, edges + 1);
            assert(newv as int != fi as int);
            assert forall|x: int, y: int|
                0 <= x < n && 0 <= y < n && #[trigger] md2[x][y] != 0 implies ((x != fi
                    && parent[x] == y) || (y != fi && parent[y] == x)) by {
                if x == a as int && y == b as int {
                    assert(parent[newv as int] == vi);
                } else {
                    assert(md[x][y] != 0);
                    assert(sold.contains(x) && sold.contains(y));
                    assert(x != newv as int && y != newv as int);
                    assert(parent[x] == oldparent[x] && parent[y] == oldparent[y]);
                }
            }
            assert forall|v: int|
                visited_set(visited@).contains(v) && v != fi implies {
                    &&& visited_set(visited@).contains(#[trigger] parent[v])
                    &&& step_ok(md2, v, parent[v])
                    &&& rank[parent[v]] < rank[v]
                } by {
                if v == newv as int {
                    assert(parent[v] == vi && sold.contains(vi));
                    assert(step_ok(md2, newv as int, vi)) by {
                        assert(md2[a as int][b as int] == w && w != 0);
                    }
                    assert(rank[vi] == oldrank[vi] && oldrank[vi] <= edges);
                } else {
                    assert(sold.contains(v));
                    assert(parent[v] == oldparent[v]);
                    assert(sold.contains(oldparent[v]));
                    assert(oldparent[v] != newv as int && v != newv as int);
                    assert(rank[v] == oldrank[v] && rank[parent[v]] == oldrank[oldparent[v]]);
                    assert(step_ok(md, v, oldparent[v]));
                }
            }
            assert(step_ok(md2, vi, newv as int)) by {
                assert(md2[a as int][b as int] == w && w != 0);
            }
            assert(connects(md2, vi, newv as int)) by {
                let p = seq![vi, newv as int];
                assert(is_walk(md2, p) && p.first() == vi && p.last() == newv as int);
            }
            lemma_connects_sym(md2, vi, newv as int);
            assert(sold.contains(vi));
            assert forall|u: int, v: int|
                visited_set(visited@).contains(u) && visited_set(visited@).contains(v) implies
                #[trigger] connects(md2, u, v) by {
                if sold.contains(u) && sold.contains(v) {
                    lemma_connects_monotone(md, md2, u, v);
                } else if sold.contains(u) && v == newv as int {
                    lemma_connects_monotone(md, md2, u, vi);
                    lemma_connects_trans(md2, u, vi, newv as int);
                } else if u == newv as int && sold.contains(v) {
                    lemma_connects_monotone(md, md2, vi, v);
                    lemma_connects_trans(md2, newv as int, vi, v);
                } else {
                    lemma_connects_refl(md2, u);
                }
            }
        }
        edges = edges + 1;
    }
    proof {
        let md = mst.deep_view();
        let s = visited_set(visited@);
        // every vertex is in the tree
        assert forall|x: int| 0 <= x < n implies s.contains(x) by {
            if !s.contains(x) {
                vstd::set_lib::lemma_int_range(0, n as int);
                let reduced = vstd::set_lib::set_int_range(0, n as int).remove(x);
                assert(s.subset_of(reduced));
                vstd::set_lib::lemma_len_subset(s, reduced);
            }
        }
        // the tree's own edges witness every cut of the graph
        assert forall|c: Set<int>| #[trigger] proper_cut(g, c) implies crossing_edge(g, c) by {
            let u = choose|u: int| 0 <= u < g.len() && #[trigger] c.contains(u);
            let v = choose|v: int| 0 <= v < g.len() && !(#[trigger] c.contains(v));
            assert(connects(md, u, v));
            let p = choose|p: Seq<int>| is_walk(md, p) && p.first() == u && p.last() == v;
            lemma_walk_crosses_cut(md, p, c);
            let k = choose|k: int|
                0 <= k < p.len() - 1 && c.contains(#[trigger] p[k]) && !c.contains(p[k + 1]);
            assert(step_ok(md, p[k], p[k + 1]));
            if md[p[k]][p[k + 1]] != 0 {
                assert(pair_edge(g, p[k], p[k + 1]));
            } else {
                assert(pair_edge(g, p[k + 1], p[k]));
            }
        }
        assert(cut_connected(g));
        assert(zero_diagonal(md));
        assert(one_directional(md));
        assert(grown_tree(md, fi as int, parent, rank)) by {
            assert(forall|v: int| 0 <= v < n ==> s.contains(v));
        }
    }
    Ok(mst)
}

/// The all-zero matrix stores no edge.
proof fn lemma_zero_matrix_count(m: Seq<Seq<u64>>, i: int, j: int)
    requires
        forall|x: int, y: int| 0 <= x < i && 0 <= y < j ==> #[trigger] m[x][y] == 0,
    ensures
        row_total(m, i, j) == 0,
    decreases i,
{
    if i > 0 {
        lemma_zero_matrix_count(m, i - 1, j);
        lemma_zero_row_count(m, i - 1, j);
    }
}

/// A row of zeroes counts nothing.
proof fn lemma_zero_row_count(m: Seq<Seq<u64>>, r: int, j: int)
    requires
        forall|y: int| 0 <= y < j ==> #[trigger] m[r][y] == 0,
    ensures
        row_nonzero_upto(m, r, j) == 0,
    decreases j,
{
    if j > 0 {
        lemma_zero_row_count(m, r, j - 1);
    }
}

} // verus!
