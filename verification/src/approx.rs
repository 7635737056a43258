//! The approximate solver: a depth-first preorder walk over the doubled
//! spanning tree. Each call collects the unvisited neighbours in ascending
//! index order, recurses into them last-discovered first, each child with its
//! own copy of the visited set extended by the current vertex, and emits the
//! current vertex after its children; the caller reverses the emission and
//! closes the cycle with the start vertex.

use vstd::prelude::*;

use crate::cost::eval_open_spec;
use crate::cost::meets_eval_open;
use crate::cost::open_cost;
use crate::cost::path_in_range;
use crate::graph::connects;
use crate::graph::is_square;
use crate::graph::is_walk;
use crate::graph::lemma_matrix_view;
use crate::graph::step_ok;
use crate::graph::TspError;

verus! {

/// The matrix stores the same weight in both directions, as the doubled tree
/// does.
pub open spec fn symmetric(m: Seq<Seq<u64>>) -> bool {
    forall|i: int, j: int|
        0 <= i < m.len() && 0 <= j < m.len() ==> #[trigger] m[i][j] == m[j][i]
}

/// No vertex of the walk is banned.
pub open spec fn walk_avoids(p: Seq<int>, banned: Seq<usize>) -> bool {
    forall|k: int| 0 <= k < p.len() ==> !banned.contains((#[trigger] p[k]) as usize)
}

/// Some walk joins `a` to `b` without touching a banned vertex.
pub open spec fn reach_avoid(m: Seq<Seq<u64>>, banned: Seq<usize>, a: int, b: int) -> bool {
    exists|p: Seq<int>| is_walk(m, p) && walk_avoids(p, banned) && p.first() == a && p.last() == b
}

/// Everything reachable from `c` without touching a banned vertex already
/// stands in `res`.
pub open spec fn subtree_done(m: Seq<Seq<u64>>, banned: Seq<usize>, c: int, res: Seq<usize>) -> bool {
    forall|x: int| #[trigger] reach_avoid(m, banned, c, x) ==> res.contains(x as usize)
}

/// `c` is an unvisited neighbour of `dad`.
pub open spec fn is_child(g: Seq<Seq<u64>>, dad: int, vis: Seq<usize>, c: int) -> bool {
    0 <= c < g.len() && g[dad][c] != 0 && !vis.contains(c as usize)
}

/// A duplicate-free sequence of vertices below `n` has at most `n` entries.
pub proof fn lemma_distinct_bounded_len(s: Seq<usize>, n: int)
    requires
        s.no_duplicates(),
        forall|k: int| 0 <= k < s.len() ==> #[trigger] s[k] < n,
        0 <= n,
    ensures
        s.len() <= n,
{
    let mapped = s.map_values(|x: usize| x as int);
    assert forall|i: int, j: int| 0 <= i < j < mapped.len() implies mapped[i] != mapped[j] by {
        assert(s[i] != s[j]);
    }
    assert(mapped.no_duplicates());
    mapped.unique_seq_to_set();
    vstd::set_lib::lemma_int_range(0, n);
    assert forall|x: int| mapped.to_set().contains(x) implies vstd::set_lib::set_int_range(
        0,
        n,
    ).contains(x) by {
        let k = choose|k: int| 0 <= k < mapped.len() && mapped[k] == x;
        assert(s[k] < n);
    }
    vstd::set_lib::lemma_len_subset(mapped.to_set(), vstd::set_lib::set_int_range(0, n));
}

/// If the children of `u` have all been fully explored, everything reachable
/// from `u` without touching a banned vertex has been emitted: the walk
/// either shortcuts back through `u` or descends through some child.
proof fn lemma_dfs_reaches(
    m: Seq<Seq<u64>>,
    banned: Seq<usize>,
    u: int,
    v: int,
    res: Seq<usize>,
    p: Seq<int>,
)
    requires
        is_square(m),
        symmetric(m),
        m.len() <= usize::MAX,
        is_walk(m, p),
        walk_avoids(p, banned),
        p.first() == u,
        p.last() == v,
        res.contains(u as usize),
        0 <= u < m.len(),
        forall|c: int, x: int|
            is_child(m, u, banned, c) && #[trigger] reach_avoid(m, banned.push(u as usize), c, x)
                ==> res.contains(x as usize),
    ensures
        res.contains(v as usize),
    decreases p.len(),
{
    if p.len() == 1 {
        assert(v == u);
    } else if exists|k: int| 1 <= k < p.len() && p[k] == u {
        let k = choose|k: int| 1 <= k < p.len() && p[k] == u;
        let q = p.subrange(k, p.len() as int);
        assert(is_walk(m, q)) by {
            assert forall|x: int| 0 <= x < q.len() - 1 implies step_ok(m, #[trigger] q[x], q[x + 1])
                by {
                assert(step_ok(m, p[k + x], p[k + x + 1]));
            }
        }
        assert(walk_avoids(q, banned)) by {
            assert(forall|x: int| 0 <= x < q.len() ==> #[trigger] q[x] == p[k + x]);
        }
        lemma_dfs_reaches(m, banned, u, v, res, q);
    } else {
        let c = p[1];
        assert(c != u);
        assert(step_ok(m, u, c));
        assert(m[u][c] != 0);
        assert(!banned.contains(c as usize));
        let rest = p.drop_first();
        assert(is_walk(m, rest)) by {
            assert forall|x: int| 0 <= x < rest.len() - 1 implies step_ok(
                m,
                #[trigger] rest[x],
                rest[x + 1],
            ) by {
                assert(step_ok(m, p[x + 1], p[x + 2]));
            }
        }
        assert(walk_avoids(rest, banned.push(u as usize))) by {
            assert forall|x: int| 0 <= x < rest.len() implies !banned.push(u as usize).contains(
                (#[trigger] rest[x]) as usize,
            ) by {
                assert(rest[x] == p[x + 1]);
                assert(p[x + 1] != u);
                assert(0 <= p[x + 1] < m.len());
                assert(!banned.contains(p[x + 1] as usize));
                if banned.push(u as usize).contains(p[x + 1] as usize) {
                    let bu = banned.push(u as usize);
                    let k = choose|k: int| 0 <= k < bu.len() && #[trigger] bu[k] == p[x + 1] as usize;
                    if k < banned.len() {
                        assert(banned[k] == p[x + 1] as usize);
                        assert(banned.contains(p[x + 1] as usize));
                    } else {
                        assert(bu[k] == u as usize);
                        assert(p[x + 1] as usize == u as usize);
                        assert(p[x + 1] == u);
                    }
                }
            }
        }
        assert(rest.first() == c && rest.last() == v);
        assert(is_child(m, u, banned, c));
        assert(reach_avoid(m, banned.push(u as usize), c, v));
    }
}

/// Does the ancestor chain of `v` — following parents towards the root — pass
/// through `u`? The fuel only serves termination; any fuel at least the rank
/// of `v` computes the whole chain.
pub open spec fn on_chain(
    parent: Map<int, int>,
    root: int,
    u: int,
    v: int,
    fuel: nat,
) -> bool
    decreases fuel,
{
    if v == u {
        true
    } else if v == root || fuel == 0 {
        false
    } else {
        on_chain(parent, root, u, parent[v], (fuel - 1) as nat)
    }
}

/// The child of `u` that the ancestor chain of `v` descends from, or `-1`
/// when the chain misses `u`.
pub open spec fn u_branch(parent: Map<int, int>, root: int, u: int, v: int, fuel: nat) -> int
    decreases fuel,
{
    if v == u || v == root || fuel == 0 {
        -1
    } else if parent[v] == u {
        v
    } else {
        u_branch(parent, root, u, parent[v], (fuel - 1) as nat)
    }
}

/// Enough fuel is all the same fuel: any two amounts at least the rank of `v`
/// agree, because the chain climbs one rank step at a time.
proof fn lemma_chain_fuel(
    m: Seq<Seq<u64>>,
    root: int,
    parent: Map<int, int>,
    rank: Map<int, int>,
    u: int,
    v: int,
    f1: nat,
    f2: nat,
)
    requires
        crate::mst::grown_tree(m, root, parent, rank),
        0 <= v < m.len(),
        f1 >= rank[v],
        f2 >= rank[v],
    ensures
        on_chain(parent, root, u, v, f1) == on_chain(parent, root, u, v, f2),
        u_branch(parent, root, u, v, f1) == u_branch(parent, root, u, v, f2),
    decreases rank[v],
{
    if v != u && v != root {
        assert(rank[parent[v]] < rank[v] && rank[v] >= 1);
        lemma_chain_fuel(m, root, parent, rank, u, parent[v], (f1 - 1) as nat, (f2 - 1) as nat);
    }
}

/// A vertex on the chain of `v` has rank at most the rank of `v`.
proof fn lemma_on_chain_rank(
    m: Seq<Seq<u64>>,
    root: int,
    parent: Map<int, int>,
    rank: Map<int, int>,
    u: int,
    v: int,
    fuel: nat,
)
    requires
        crate::mst::grown_tree(m, root, parent, rank),
        0 <= v < m.len(),
        on_chain(parent, root, u, v, fuel),
    ensures
        rank[u] <= rank[v],
    decreases fuel,
{
    if v != u {
        assert(v != root && fuel > 0);
        lemma_on_chain_rank(m, root, parent, rank, u, parent[v], (fuel - 1) as nat);
    }
}

/// Crossing one tree edge that avoids `u` changes neither whether the chain
/// passes `u` nor through which child of `u` it does.
proof fn lemma_region_step(
    m: Seq<Seq<u64>>,
    root: int,
    parent: Map<int, int>,
    rank: Map<int, int>,
    u: int,
    x: int,
    y: int,
)
    requires
        crate::mst::grown_tree(m, root, parent, rank),
        0 <= x < m.len(),
        0 <= y < m.len(),
        x != u,
        y != u,
        step_ok(m, x, y),
    ensures
        on_chain(parent, root, u, x, m.len() as nat) == on_chain(parent, root, u, y, m.len() as nat),
        u_branch(parent, root, u, x, m.len() as nat) == u_branch(parent, root, u, y, m.len() as nat),
{
    let n = m.len() as nat;
    if m[x][y] != 0 {
        assert((x != root && parent[x] == y) || (y != root && parent[y] == x));
    } else {
        assert(m[y][x] != 0);
        assert((y != root && parent[y] == x) || (x != root && parent[x] == y));
    }
    if x != root && parent[x] == y {
        assert(rank[x] >= 1);
        assert(on_chain(parent, root, u, x, n) == on_chain(parent, root, u, y, (n - 1) as nat));
        assert(u_branch(parent, root, u, x, n) == u_branch(parent, root, u, y, (n - 1) as nat));
        lemma_chain_fuel(m, root, parent, rank, u, y, (n - 1) as nat, n);
    } else {
        assert(y != root && parent[y] == x);
        assert(rank[y] >= 1);
        assert(on_chain(parent, root, u, y, n) == on_chain(parent, root, u, x, (n - 1) as nat));
        assert(u_branch(parent, root, u, y, n) == u_branch(parent, root, u, x, (n - 1) as nat));
        lemma_chain_fuel(m, root, parent, rank, u, x, (n - 1) as nat, n);
    }
}

/// A whole walk that avoids `u` stays on one side of `u`, hanging off the
/// same child of `u` — or off none — at both ends.
proof fn lemma_region_walk(
    m: Seq<Seq<u64>>,
    root: int,
    parent: Map<int, int>,
    rank: Map<int, int>,
    u: int,
    p: Seq<int>,
)
    requires
        crate::mst::grown_tree(m, root, parent, rank),
        is_walk(m, p),
        forall|k: int| 0 <= k < p.len() ==> #[trigger] p[k] != u,
    ensures
        on_chain(parent, root, u, p.first(), m.len() as nat) == on_chain(
            parent,
            root,
            u,
            p.last(),
            m.len() as nat,
        ),
        u_branch(parent, root, u, p.first(), m.len() as nat) == u_branch(
            parent,
            root,
            u,
            p.last(),
            m.len() as nat,
        ),
    decreases p.len(),
{
    if p.len() > 1 {
        lemma_region_step(m, root, parent, rank, u, p[0], p[1]);
        let rest = p.drop_first();
        assert(is_walk(m, rest)) by {
            assert forall|k: int| 0 <= k < rest.len() - 1 implies step_ok(
                m,
                #[trigger] rest[k],
                rest[k + 1],
            ) by {
                assert(step_ok(m, p[k + 1], p[k + 2]));
            }
        }
        assert(forall|k: int| 0 <= k < rest.len() ==> #[trigger] rest[k] == p[k + 1]);
        lemma_region_walk(m, root, parent, rank, u, rest);
    }
}

/// Two distinct neighbours of `u` hang on different sides of `u`: either
/// under different children, or one under `u` and one above it.
proof fn lemma_neighbour_regions_differ(
    m: Seq<Seq<u64>>,
    root: int,
    parent: Map<int, int>,
    rank: Map<int, int>,
    u: int,
    c1: int,
    c2: int,
)
    requires
        crate::mst::grown_tree(m, root, parent, rank),
        0 <= u < m.len(),
        0 <= c1 < m.len(),
        0 <= c2 < m.len(),
        c1 != c2,
        c1 != u,
        c2 != u,
        step_ok(m, u, c1),
        step_ok(m, u, c2),
    ensures
        on_chain(parent, root, u, c1, m.len() as nat) != on_chain(parent, root, u, c2, m.len() as nat)
            || u_branch(parent, root, u, c1, m.len() as nat) != u_branch(
            parent,
            root,
            u,
            c2,
            m.len() as nat,
        ),
{
    let n = m.len() as nat;
    let child1 = c1 != root && parent[c1] == u;
    let child2 = c2 != root && parent[c2] == u;
    assert(child1 || (u != root && parent[u] == c1)) by {
        if m[u][c1] != 0 {
        } else {
            assert(m[c1][u] != 0);
        }
    }
    assert(child2 || (u != root && parent[u] == c2)) by {
        if m[u][c2] != 0 {
        } else {
            assert(m[c2][u] != 0);
        }
    }
    if child1 && child2 {
        assert(rank[c1] >= 1 && rank[c2] >= 1);
        assert(u_branch(parent, root, u, c1, n) == c1);
        assert(u_branch(parent, root, u, c2, n) == c2);
    } else if child1 {
        assert(parent[u] == c2 && u != root);
        assert(rank[c1] >= 1);
        assert(on_chain(parent, root, u, c1, n)) by {
            assert(on_chain(parent, root, u, u, (n - 1) as nat));
        }
        assert(!on_chain(parent, root, u, c2, n)) by {
            if on_chain(parent, root, u, c2, n) {
                lemma_on_chain_rank(m, root, parent, rank, u, c2, n);
                assert(rank[c2] < rank[u]);
            }
        }
    } else if child2 {
        assert(parent[u] == c1 && u != root);
        assert(rank[c2] >= 1);
        assert(on_chain(parent, root, u, c2, n)) by {
            assert(on_chain(parent, root, u, u, (n - 1) as nat));
        }
        assert(!on_chain(parent, root, u, c1, n)) by {
            if on_chain(parent, root, u, c1, n) {
                lemma_on_chain_rank(m, root, parent, rank, u, c1, n);
                assert(rank[c1] < rank[u]);
            }
        }
    } else {
        assert(parent[u] == c1 && parent[u] == c2);
        assert(false);
    }
}

/// Whatever is reachable from a child of `u` while avoiding the visited set
/// extended with `u` is reachable from `u` while avoiding the set alone.
proof fn lemma_reach_lift(m: Seq<Seq<u64>>, s: Seq<usize>, u: usize, c: int, x: int)
    requires
        (u as int) < m.len(),
        0 <= c < m.len(),
        m[u as int][c] != 0,
        !s.contains(u),
        reach_avoid(m, s.push(u), c, x),
    ensures
        reach_avoid(m, s, u as int, x),
{
    let p = choose|p: Seq<int>|
        is_walk(m, p) && walk_avoids(p, s.push(u)) && p.first() == c && p.last() == x;
    let q = seq![u as int] + p;
    assert(is_walk(m, q)) by {
        assert forall|k: int| 0 <= k < q.len() - 1 implies step_ok(m, #[trigger] q[k], q[k + 1]) by {
            if k == 0 {
                assert(q[0] == u as int && q[1] == p[0]);
            } else {
                assert(q[k] == p[k - 1] && q[k + 1] == p[k]);
                assert(step_ok(m, p[k - 1], p[k]));
            }
        }
        assert(forall|k: int| 1 <= k < q.len() ==> #[trigger] q[k] == p[k - 1]);
    }
    assert(walk_avoids(q, s)) by {
        assert forall|k: int| 0 <= k < q.len() implies !s.contains((#[trigger] q[k]) as usize) by {
            if k > 0 {
                assert(q[k] == p[k - 1]);
                assert(!s.push(u).contains(p[k - 1] as usize));
                if s.contains(p[k - 1] as usize) {
                    let j = choose|j: int| 0 <= j < s.len() && s[j] == p[k - 1] as usize;
                    assert(s.push(u)[j] == p[k - 1] as usize);
                }
            }
        }
    }
    assert(q.first() == u as int && q.last() == x);
}

/// Does the vector hold the value?
fn vec_contains(v: &Vec<usize>, x: usize) -> (r: bool)
    ensures
        r == v@.contains(x),
{
    let mut k: usize = 0;
    while k < v.len()
        invariant
            0 <= k <= v@.len(),
            forall|j: int| 0 <= j < k ==> v@[j] != x,
        decreases v@.len() - k,
    {
        if v[k] == x {
            return true;
        }
        k = k + 1;
    }
    false
}

/// Copies a vector of vertices.
fn copy_verts(src: &Vec<usize>) -> (r: Vec<usize>)
    ensures
        r@ == src@,
{
    let mut r: Vec<usize> = Vec::new();
    let mut k: usize = 0;
    while k < src.len()
        invariant
            0 <= k <= src@.len(),
            r@ == src@.take(k as int),
        decreases src@.len() - k,
    {
        r.push(src[k]);
        proof {
            assert(r@ =~= src@.take(k + 1));
        }
        k = k + 1;
    }
    proof {
        assert(src@.take(src@.len() as int) =~= src@);
    }
    r
}

/// Collects the unvisited neighbours of `dad`, in ascending vertex-index
/// order as the matrix row is scanned.
pub fn get_all_children_verteces(
    dad: usize,
    visited_nodes: &Vec<usize>,
    graph: &Vec<Vec<u64>>,
) -> (r: Vec<usize>)
    requires
        is_square(graph.deep_view()),
        dad < graph.deep_view().len(),
    ensures
        forall|k1: int, k2: int| 0 <= k1 < k2 < r@.len() ==> r@[k1] < r@[k2],
        forall|k: int| 0 <= k < r@.len() ==> #[trigger] r@[k] < graph.deep_view().len(),
        forall|c: int|
            r@.contains(c as usize) && 0 <= c < graph.deep_view().len() ==> #[trigger] is_child(
                graph.deep_view(),
                dad as int,
                visited_nodes@,
                c,
            ),
        forall|c: int|
            #[trigger] is_child(graph.deep_view(), dad as int, visited_nodes@, c) ==> r@.contains(
                c as usize,
            ),
{
    let ghost g = graph.deep_view();
    let n = graph.len();
    proof {
        lemma_matrix_view(graph);
        assert(g[dad as int].len() == n);
    }
    let mut r: Vec<usize> = Vec::new();
    let mut i: usize = 0;
    while i < n
        invariant
            0 <= i <= n,
            n == g.len(),
            g == graph.deep_view(),
            is_square(g),
            dad < n,
            g[dad as int].len() == n,
            forall|k1: int, k2: int| 0 <= k1 < k2 < r@.len() ==> r@[k1] < r@[k2],
            forall|k: int| 0 <= k < r@.len() ==> #[trigger] r@[k] < i,
            forall|c: int|
                r@.contains(c as usize) && 0 <= c < n ==> #[trigger] is_child(
                    g,
                    dad as int,
                    visited_nodes@,
                    c,
                ),
            forall|c: int|
                0 <= c < i && #[trigger] is_child(g, dad as int, visited_nodes@, c)
                    ==> r@.contains(c as usize),
        decreases n - i,
    {
        proof {
            lemma_matrix_view(graph);
            assert(g[dad as int] == graph@[dad as int]@);
        }
        let qualifies = graph[dad][i] != 0 && !vec_contains(visited_nodes, i);
        let ghost prev = r@;
        if qualifies {
            r.push(i);
        }
        proof {
            if qualifies {
                assert(r@ == prev.push(i));
                assert(is_child(g, dad as int, visited_nodes@, i as int));
                assert(r@[r@.len() - 1] == i);
                assert(r@.contains(i as usize));
                assert forall|c: int|
                    r@.contains(c as usize) && 0 <= c < n implies #[trigger] is_child(
                        g,
                        dad as int,
                        visited_nodes@,
                        c,
                    ) by {
                    let k = choose|k: int| 0 <= k < r@.len() && r@[k] == c as usize;
                    if k < prev.len() {
                        assert(prev.contains(c as usize));
                    } else {
                        assert(c as usize == i);
                    }
                }
                assert forall|c: int|
                    0 <= c < i + 1 && #[trigger] is_child(g, dad as int, visited_nodes@, c)
                    implies r@.contains(c as usize) by {
                    if c < i {
                        assert(prev.contains(c as usize));
                        let k = choose|k: int| 0 <= k < prev.len() && prev[k] == c as usize;
                        assert(r@[k] == c as usize);
                    }
                }
            } else {
                assert(!is_child(g, dad as int, visited_nodes@, i as int));
                assert forall|c: int|
                    0 <= c < i + 1 && #[trigger] is_child(g, dad as int, visited_nodes@, c)
                    implies r@.contains(c as usize) by {
                }
            }
        }
        i = i + 1;
    }
    r
}

/// The depth-first emission: explores the unvisited neighbours of `u`, each
/// child seeing its own copy of the visited set extended with `u`, and emits
/// `u` after all children, so the overall emission is a postorder that the
/// caller reverses into a preorder.
pub fn get_approximative_path(
    u: usize,
    multigraph: &Vec<Vec<u64>>,
    visiteds: &mut Vec<usize>,
) -> (path: Vec<usize>)
    requires
        is_square(multigraph.deep_view()),
        symmetric(multigraph.deep_view()),
        crate::graph::zero_diagonal(multigraph.deep_view()),
        exists|root: int, parent: Map<int, int>, rank: Map<int, int>|
            crate::mst::grown_tree(multigraph.deep_view(), root, parent, rank),
        u < multigraph.deep_view().len(),
        old(visiteds)@.no_duplicates(),
        forall|k: int|
            0 <= k < old(visiteds)@.len() ==> #[trigger] old(visiteds)@[k]
                < multigraph.deep_view().len(),
        !old(visiteds)@.contains(u),
    ensures
        final(visiteds)@ == old(visiteds)@.push(u),
        path@.len() >= 1,
        path@[path@.len() - 1] == u,
        path@.no_duplicates(),
        forall|k: int|
            0 <= k < path@.len() ==> (#[trigger] path@[k] < multigraph.deep_view().len() && !old(
                visiteds,
            )@.contains(path@[k])),
        forall|k: int|
            0 <= k < path@.len() ==> reach_avoid(
                multigraph.deep_view(),
                old(visiteds)@,
                u as int,
                (#[trigger] path@[k]) as int,
            ),
        subtree_done(multigraph.deep_view(), old(visiteds)@, u as int, path@),
    decreases multigraph.deep_view().len() - old(visiteds)@.len(),
{
    let ghost m = multigraph.deep_view();
    let ghost s = visiteds@;
    let ghost n = m.len();
    let ghost (root, parent, rank) = choose|root: int, parent: Map<int, int>, rank: Map<int, int>|
        crate::mst::grown_tree(m, root, parent, rank);
    let nv = multigraph.len();
    proof {
        lemma_matrix_view(multigraph);
        assert(n == nv as int);
    }
    let mut childrens = get_all_children_verteces(u, visiteds, multigraph);
    visiteds.push(u);
    let ghost su = s.push(u);
    proof {
        assert(su.no_duplicates()) by {
            assert(forall|k: int| 0 <= k < s.len() ==> su[k] == s[k]);
            assert(su[su.len() - 1] == u);
        }
        assert forall|x: usize| su.contains(x) implies (s.contains(x) || x == u) by {
            let k = choose|k: int| 0 <= k < su.len() && su[k] == x;
            if k < s.len() {
                assert(s[k] == x);
            }
        }
        lemma_distinct_bounded_len(su, n as int);
        assert forall|k: int| 0 <= k < childrens@.len() implies is_child(
            m,
            u as int,
            s,
            #[trigger] childrens@[k] as int,
        ) by {
            assert(childrens@[k] < n);
            assert(childrens@.contains(childrens@[k]));
        }
        assert(childrens@.no_duplicates()) by {
            assert(forall|k1: int, k2: int|
                0 <= k1 < k2 < childrens@.len() ==> childrens@[k1] < childrens@[k2]);
        }
    }
    let mut path: Vec<usize> = Vec::new();
    while childrens.len() > 0
        invariant
            is_square(m),
            symmetric(m),
            crate::graph::zero_diagonal(m),
            m == multigraph.deep_view(),
            u < n == m.len(),
            s == old(visiteds)@,
            s.no_duplicates(),
            forall|k: int| 0 <= k < s.len() ==> #[trigger] s[k] < n,
            !s.contains(u),
            su == s.push(u),
            su.no_duplicates(),
            su.len() <= n,
            forall|x: usize| su.contains(x) ==> (s.contains(x) || x == u),
            visiteds@ == su,
            n <= usize::MAX,
            crate::mst::grown_tree(m, root, parent, rank),
            childrens@.no_duplicates(),
            path@.no_duplicates(),
            forall|k: int| 0 <= k < childrens@.len() ==> #[trigger] childrens@[k] < n,
            forall|k: int|
                0 <= k < childrens@.len() ==> is_child(m, u as int, s, #[trigger] childrens@[k] as int),
            forall|k: int|
                0 <= k < path@.len() ==> (#[trigger] path@[k] < n && !su.contains(path@[k])),
            forall|k: int|
                0 <= k < path@.len() ==> exists|c: int|
                    is_child(m, u as int, s, c) && !childrens@.contains(c as usize) && reach_avoid(
                        m,
                        su,
                        c,
                        (#[trigger] path@[k]) as int,
                    ),
            forall|c: int|
                #[trigger] is_child(m, u as int, s, c) ==> (childrens@.contains(c as usize)
                    || subtree_done(m, su, c, path@)),
        decreases childrens@.len(),
    {
        let ghost oldkids = childrens@;
        let current = match childrens.pop() {
            Some(c) => c,
            None => unreached(),
        };
        assert(current == oldkids[oldkids.len() - 1]);
        assert(childrens@ == oldkids.drop_last());
        let mut vclone = copy_verts(visiteds);
        proof {
            assert(is_child(m, u as int, s, oldkids[oldkids.len() - 1] as int));
            assert(m[u as int][current as int] != 0 && !s.contains(current));
            assert(current != u) by {
                assert(m[u as int][u as int] == 0);
            }
            assert(!su.contains(current));
            assert(su.len() < n) by {
                if su.len() == n {
                    // a duplicate-free sequence of n vertices below n holds them all
                    assert(forall|k: int| 0 <= k < su.len() ==> #[trigger] su[k] < n);
                    let with_c = su.push(current);
                    assert(with_c.no_duplicates()) by {
                        assert(forall|k: int| 0 <= k < su.len() ==> with_c[k] == su[k]);
                        assert(with_c[with_c.len() - 1] == current);
                    }
                    assert(forall|k: int| 0 <= k < with_c.len() ==> #[trigger] with_c[k] < n);
                    lemma_distinct_bounded_len(with_c, n as int);
                }
            }
        }
        let ghost prevpath = path@;
        let mut sub = get_approximative_path(current, multigraph, &mut vclone);
        let ghost subv = sub@;
        path.append(&mut sub);
        proof {
            assert(path@ == prevpath + subv);
            // everything once emitted stays emitted
            assert forall|x: usize| prevpath.contains(x) implies path@.contains(x) by {
                let k = choose|k: int| 0 <= k < prevpath.len() && prevpath[k] == x;
                assert(path@[k] == x);
            }
            assert forall|x: usize| subv.contains(x) implies path@.contains(x) by {
                let k = choose|k: int| 0 <= k < subv.len() && subv[k] == x;
                assert(path@[prevpath.len() + k] == x);
            }
            // the explored child left the worklist for good
            assert(!childrens@.contains(current)) by {
                if childrens@.contains(current) {
                    let i0 = choose|i0: int|
                        0 <= i0 < childrens@.len() && #[trigger] childrens@[i0] == current;
                    assert(oldkids[i0] == current && oldkids[oldkids.len() - 1] == current);
                }
            }
            assert(childrens@.no_duplicates()) by {
                assert(forall|i: int, j: int|
                    0 <= i < j < childrens@.len() ==> oldkids[i] != oldkids[j]);
            }
            // each entry of the grown emission hangs under a child that has
            // already left the worklist
            assert forall|k: int| 0 <= k < path@.len() implies exists|c: int|
                is_child(m, u as int, s, c) && !childrens@.contains(c as usize) && reach_avoid(
                    m,
                    su,
                    c,
                    (#[trigger] path@[k]) as int,
                ) by {
                if k < prevpath.len() {
                    assert(path@[k] == prevpath[k]);
                    let c0 = choose|c0: int|
                        is_child(m, u as int, s, c0) && !oldkids.contains(c0 as usize)
                            && reach_avoid(m, su, c0, (prevpath[k]) as int);
                    assert(!childrens@.contains(c0 as usize)) by {
                        if childrens@.contains(c0 as usize) {
                            let i0 = choose|i0: int|
                                0 <= i0 < childrens@.len() && #[trigger] childrens@[i0] == c0 as usize;
                            assert(oldkids[i0] == c0 as usize);
                            assert(oldkids.contains(c0 as usize));
                        }
                    }
                } else {
                    assert(path@[k] == subv[k - prevpath.len()]);
                    assert(reach_avoid(m, su, current as int, (path@[k]) as int));
                    assert(is_child(m, u as int, s, current as int));
                }
            }
            // the new entries cannot repeat the old ones: the old ones hang
            // under other children, and the tree keeps the subtrees of
            // distinct children apart
            assert forall|i: int, j: int|
                0 <= i < prevpath.len() && 0 <= j < subv.len() implies prevpath[i] != subv[j] by {
                if prevpath[i] == subv[j] {
                    let c0 = choose|c0: int|
                        is_child(m, u as int, s, c0) && !oldkids.contains(c0 as usize)
                            && reach_avoid(m, su, c0, (prevpath[i]) as int);
                    assert(c0 != current as int);
                    assert(c0 != u as int && current != u) by {
                        assert(m[u as int][u as int] == 0);
                    }
                    assert(su.contains(u)) by {
                        assert(su[su.len() - 1] == u);
                    }
                    let x = prevpath[i] as int;
                    assert(reach_avoid(m, su, current as int, x));
                    let p1 = choose|p1: Seq<int>|
                        is_walk(m, p1) && walk_avoids(p1, su) && p1.first() == c0 && p1.last() == x;
                    let p2 = choose|p2: Seq<int>|
                        is_walk(m, p2) && walk_avoids(p2, su) && p2.first() == current as int
                            && p2.last() == x;
                    assert forall|k: int| 0 <= k < p1.len() implies #[trigger] p1[k] != u as int by {
                        assert(!su.contains((p1[k]) as usize));
                    }
                    assert forall|k: int| 0 <= k < p2.len() implies #[trigger] p2[k] != u as int by {
                        assert(!su.contains((p2[k]) as usize));
                    }
                    lemma_region_walk(m, root, parent, rank, u as int, p1);
                    lemma_region_walk(m, root, parent, rank, u as int, p2);
                    lemma_neighbour_regions_differ(
                        m,
                        root,
                        parent,
                        rank,
                        u as int,
                        c0,
                        current as int,
                    );
                    assert(false);
                }
            }
            assert(path@.no_duplicates()) by {
                assert forall|i: int, j: int|
                    0 <= i < j < path@.len() implies path@[i] != path@[j] by {
                    if j < prevpath.len() {
                        assert(prevpath[i] != prevpath[j]);
                    } else if i >= prevpath.len() {
                        assert(subv[i - prevpath.len()] != subv[j - prevpath.len()]);
                    } else {
                        assert(path@[i] == prevpath[i] && path@[j] == subv[j - prevpath.len()]);
                    }
                }
            }
            // the popped child's subtree is now fully emitted
            assert(subtree_done(m, su, current as int, path@)) by {
                assert forall|x: int| #[trigger] reach_avoid(m, su, current as int, x) implies
                    path@.contains(x as usize) by {
                    assert(subv.contains(x as usize));
                }
            }
            // earlier children's subtrees stay emitted in the longer path
            assert forall|c: int|
                #[trigger] is_child(m, u as int, s, c) && !(childrens@.contains(c as usize))
                implies subtree_done(m, su, c, path@) by {
                if oldkids.contains(c as usize) {
                    if c == current as int {
                        assert(subtree_done(m, su, c, path@));
                    } else {
                        let k = choose|k: int|
                            0 <= k < oldkids.len() && #[trigger] oldkids[k] == c as usize;
                        assert(k < oldkids.len() - 1);
                        assert(childrens@[k] == c as usize);
                        assert(childrens@.contains(c as usize));
                        assert(false);
                    }
                } else {
                    assert(subtree_done(m, su, c, prevpath));
                    assert forall|x: int| #[trigger] reach_avoid(m, su, c, x) implies
                        path@.contains(x as usize) by {
                        assert(prevpath.contains(x as usize));
                    }
                }
            }
        }
    }
    let ghost prepush = path@;
    path.push(u);
    proof {
        assert(path@[path@.len() - 1] == u);
        // the loop has drained the children, so every child subtree of `u`
        // stands in the emission, which only grew by `u` itself
        assert forall|c: int, x: int|
            is_child(m, u as int, s, c) && #[trigger] reach_avoid(m, su, c, x) implies
            path@.contains(x as usize) by {
            assert(subtree_done(m, su, c, prepush));
            assert(prepush.contains(x as usize));
            let k = choose|k: int| 0 <= k < prepush.len() && #[trigger] prepush[k] == x as usize;
            assert(path@[k] == x as usize);
        }
        assert forall|k: int| 0 <= k < path@.len() implies (#[trigger] path@[k] < n && !s.contains(
            path@[k],
        )) by {
            if path@[k] != u {
                assert(!su.contains(path@[k]));
                if s.contains(path@[k]) {
                    let j = choose|j: int| 0 <= j < s.len() && s[j] == path@[k];
                    assert(su[j] == path@[k]);
                }
            }
        }
        assert forall|x: int| #[trigger] reach_avoid(m, s, u as int, x) implies path@.contains(
            x as usize,
        ) by {
            let p = choose|p: Seq<int>|
                is_walk(m, p) && walk_avoids(p, s) && p.first() == u as int && p.last() == x;
            assert(path@.contains(u)) by {
                assert(path@[path@.len() - 1] == u);
            }
            lemma_dfs_reaches(m, s, u as int, x, path@, p);
        }
        // the closing entry is new: everything before it avoids `u`
        assert(path@.no_duplicates()) by {
            assert(su.contains(u)) by {
                assert(su[su.len() - 1] == u);
            }
            assert forall|i: int, j: int| 0 <= i < j < path@.len() implies path@[i] != path@[j] by {
                if j == path@.len() - 1 {
                    assert(path@[i] == prepush[i] && !su.contains(prepush[i]));
                } else {
                    assert(prepush[i] != prepush[j]);
                }
            }
        }
        // every emitted vertex is reachable from `u` outside the visited set
        assert forall|k: int| 0 <= k < path@.len() implies reach_avoid(
            m,
            s,
            u as int,
            (#[trigger] path@[k]) as int,
        ) by {
            if k == path@.len() - 1 {
                let q = seq![u as int];
                assert(is_walk(m, q) && walk_avoids(q, s) && q.first() == u as int && q.last()
                    == u as int);
            } else {
                assert(path@[k] == prepush[k]);
                let c0 = choose|c0: int|
                    is_child(m, u as int, s, c0) && !childrens@.contains(c0 as usize)
                        && reach_avoid(m, su, c0, (prepush[k]) as int);
                lemma_reach_lift(m, s, u, c0, prepush[k] as int);
            }
        }
    }
    path
}

/// Computes the open-path weight of `path`: the sum along consecutive pairs,
/// with no closing edge, as used on a path whose closing vertex is already
/// appended. Rejects a path shorter than two vertices, longer than the graph
/// plus its one closing entry, or naming a vertex outside the graph.
pub fn get_path_distance(graph: &Vec<Vec<u64>>, path: &Vec<usize>) -> (r: Result<u128, TspError>)
    requires
        is_square(graph.deep_view()),
    ensures
        meets_eval_open(graph.deep_view(), path@, r),
{
    let ghost g = graph.deep_view();
    proof {
        lemma_matrix_view(graph);
    }
    let n = graph.len();
    if path.len() < 2 || path.len() - 1 > n {
        return Err(TspError::BadPathLength);
    }
    let mut k: usize = 0;
    while k < path.len()
        invariant
            0 <= k <= path@.len(),
            2 <= path@.len() <= n + 1,
            n == g.len(),
            g == graph.deep_view(),
            is_square(g),
            forall|j: int| 0 <= j < k ==> #[trigger] path@[j] < n,
        decreases path@.len() - k,
    {
        if path[k] >= n {
            assert(!path_in_range(path@, g.len() as int));
            return Err(TspError::IndexOutOfRange);
        }
        k = k + 1;
    }
    assert(path_in_range(path@, g.len() as int));
    let mut dist: u128 = 0;
    let mut i: usize = 0;
    proof {
        assert(path@.take(1).len() == 1);
    }
    while i + 1 < path.len()
        invariant
            0 <= i < path@.len(),
            2 <= path@.len() <= n + 1,
            path@.len() <= usize::MAX,
            n == g.len(),
            g == graph.deep_view(),
            is_square(g),
            path_in_range(path@, g.len() as int),
            dist as int == open_cost(g, path@.take(i + 1)),
            dist as int <= i * (u64::MAX as int),
        decreases path@.len() - i,
    {
        proof {
            lemma_matrix_view(graph);
            assert(g[path@[i as int] as int].len() == n);
        }
        let a = path[i];
        let b = path[i + 1];
        let w = graph[a][b];
        proof {
            let t2 = path@.take(i + 2);
            assert(t2.drop_last() =~= path@.take(i + 1));
            assert(t2[t2.len() - 2] == path@[i as int]);
            assert(t2[t2.len() - 1] == path@[i + 1]);
            assert(open_cost(g, t2) == dist as int + (w as int));
            assert((i + 1) * (u64::MAX as int) == i * (u64::MAX as int) + (u64::MAX as int));
            assert(i * (u64::MAX as int) <= (usize::MAX as int) * (u64::MAX as int))
                by (nonlinear_arith)
                requires
                    0 <= i as int <= usize::MAX as int,
            ;
        }
        dist = dist + (w as u128);
        i = i + 1;
    }
    proof {
        assert(path@.take(path@.len() as int) =~= path@);
    }
    Ok(dist)
}

/// Reverses a sequence of vertices.
fn reverse_verts(src: &Vec<usize>) -> (r: Vec<usize>)
    ensures
        r@.len() == src@.len(),
        forall|k: int| 0 <= k < src@.len() ==> #[trigger] r@[k] == src@[src@.len() - 1 - k],
{
    let n = src.len();
    let mut r: Vec<usize> = Vec::new();
    let mut k: usize = 0;
    while k < n
        invariant
            0 <= k <= n,
            n == src@.len(),
            r@.len() == k,
            forall|j: int| 0 <= j < k ==> #[trigger] r@[j] == src@[src@.len() - 1 - j],
        decreases n - k,
    {
        r.push(src[n - 1 - k]);
        k = k + 1;
    }
    r
}

/// What the approximate solver guarantees of a returned tour: `n + 1`
/// entries, the start vertex `0` at both ends, every vertex exactly once
/// before the closing entry, and the open-path cost of the whole sequence.
pub open spec fn approx_tour_ok(g: Seq<Seq<u64>>, p: Seq<usize>, c: u128) -> bool {
    &&& p.len() == g.len() + 1
    &&& p[0] == 0usize
    &&& p[p.len() - 1] == 0usize
    &&& p.drop_last().no_duplicates()
    &&& forall|v: int| 0 <= v < g.len() ==> #[trigger] p.drop_last().contains(v as usize)
    &&& forall|k: int| 0 <= k < p.len() ==> #[trigger] p[k] < g.len()
    &&& c as int == open_cost(g, p)
}

/// Approximate solving end to end: reject a malformed matrix, one with fewer
/// than two vertices, or one whose vertices do not all hang together; then
/// build the spanning tree, double it, walk it depth-first from vertex `0`,
/// reverse the emission into a preorder, close the cycle with vertex `0`, and
/// price the resulting path against the original graph.
pub fn solve_tsp(graph: &Vec<Vec<u64>>) -> (r: Result<(Vec<usize>, u128), TspError>)
    ensures
        r == Err::<(Vec<usize>, u128), TspError>(TspError::NotSquare) <==> !is_square(
            graph.deep_view(),
        ),
        is_square(graph.deep_view()) ==> (r == Err::<(Vec<usize>, u128), TspError>(
            TspError::NonZeroDiagonal,
        ) <==> !crate::graph::zero_diagonal(graph.deep_view())),
        crate::graph::valid_graph(graph.deep_view()) ==> (r == Err::<(Vec<usize>, u128), TspError>(
            TspError::TooFewVertices,
        ) <==> graph.deep_view().len() < 2),
        crate::graph::valid_graph(graph.deep_view()) && graph.deep_view().len() >= 2 ==> (r
            == Err::<(Vec<usize>, u128), TspError>(TspError::Disconnected)
            <==> !crate::graph::cut_connected(graph.deep_view())),
        r matches Ok(pc) ==> approx_tour_ok(graph.deep_view(), pc.0@, pc.1),
        crate::graph::valid_graph(graph.deep_view()) && graph.deep_view().len() >= 2
            && crate::graph::cut_connected(graph.deep_view()) ==> r is Ok,
{
    let ghost g = graph.deep_view();
    match crate::graph::validate_graph(graph) {
        Err(e) => {
            return Err(e);
        },
        Ok(()) => {},
    }
    let n = graph.len();
    if n < 2 {
        return Err(TspError::TooFewVertices);
    }
    let mst = match crate::mst::prim_mst(graph) {
        Ok(m) => m,
        Err(_) => {
            return Err(TspError::Disconnected);
        },
    };
    let ghost md = mst.deep_view();
    let multigraph = crate::mst::mst_to_multigraph(mst);
    let ghost dm = multigraph.deep_view();
    proof {
        // the doubled tree is square, symmetric, zero on the diagonal, and
        // keeps every tree edge
        assert(crate::mst::one_directional(md));
        assert forall|i: int, j: int| 0 <= i < n && 0 <= j < n implies #[trigger] dm[i][j]
            == dm[j][i] by {
            if md[i][j] != 0 {
                assert(md[j][i] == 0);
            }
        }
        assert(symmetric(dm));
        assert(crate::graph::zero_diagonal(dm));
        assert(crate::graph::keeps_edges(md, dm));
        let (root0, parent0, rank0) = choose|
            root0: int,
            parent0: Map<int, int>,
            rank0: Map<int, int>,
        | crate::mst::grown_tree(md, root0, parent0, rank0);
        crate::mst::lemma_grown_tree_doubled(md, dm, root0, parent0, rank0);
        assert(crate::mst::grown_tree(dm, root0, parent0, rank0));
    }
    let mut visiteds: Vec<usize> = Vec::new();
    let emitted = get_approximative_path(0, &multigraph, &mut visiteds);
    let mut path = reverse_verts(&emitted);
    path.push(0);
    proof {
        // the emission ends with the start vertex, so the tour begins with it
        assert(path@[0] == emitted@[emitted@.len() - 1]);
        // every vertex of the graph stands in the reversed emission: the tree
        // connects it to the start, and the doubled tree keeps those walks
        assert forall|v: int| 0 <= v < n implies #[trigger] emitted@.contains(v as usize) by {
            assert(connects(md, 0, v));
            crate::graph::lemma_connects_monotone(md, dm, 0, v);
            let p = choose|p: Seq<int>| is_walk(dm, p) && p.first() == 0 && p.last() == v;
            assert(walk_avoids(p, Seq::<usize>::empty()));
            assert(reach_avoid(dm, Seq::<usize>::empty(), 0, v));
        }
    }
    proof {
        // the walk of the spanning tree emits every vertex exactly once: its
        // emission is duplicate-free and covers the vertices
        lemma_distinct_bounded_len(emitted@, n as int);
        let mapped0 = emitted@.map_values(|x: usize| x as int);
        assert forall|v: int| 0 <= v < n implies mapped0.to_set().contains(v) by {
            assert(emitted@.contains(v as usize));
            let k = choose|k: int|
                0 <= k < emitted@.len() && #[trigger] emitted@[k] == v as usize;
            assert(mapped0[k] == v);
            assert(mapped0.contains(v));
        }
        vstd::set_lib::lemma_int_range(0, n as int);
        assert(vstd::set_lib::set_int_range(0, n as int).subset_of(mapped0.to_set()));
        vstd::set_lib::lemma_len_subset(
            vstd::set_lib::set_int_range(0, n as int),
            mapped0.to_set(),
        );
        mapped0.lemma_cardinality_of_set();
        assert(emitted@.len() == n);
        assert(path@.len() == n + 1);
    }
    proof {
        let body = path@.drop_last();
        assert(body.len() == n);
        assert forall|v: int| 0 <= v < n implies #[trigger] body.contains(v as usize) by {
            assert(emitted@.contains(v as usize));
            let k = choose|k: int| 0 <= k < emitted@.len() && #[trigger] emitted@[k] == v as usize;
            let j = emitted@.len() - 1 - k;
            assert(path@[j] == v as usize);
            assert(j < n);
            assert(body[j] == v as usize);
        }
        assert forall|k: int| 0 <= k < path@.len() implies #[trigger] path@[k] < n by {
            if k < path@.len() - 1 {
                assert(path@[k] == emitted@[emitted@.len() - 1 - k]);
            }
        }
        assert(path_in_range(path@, g.len() as int));
        let mapped = body.map_values(|x: usize| x as int);
        assert forall|v: int| 0 <= v < n implies mapped.to_set().contains(v) by {
            assert(body.contains(v as usize));
            let k = choose|k: int| 0 <= k < body.len() && #[trigger] body[k] == v as usize;
            assert(mapped[k] == v);
            assert(mapped.contains(v));
        }
        vstd::set_lib::lemma_int_range(0, n as int);
        assert(vstd::set_lib::set_int_range(0, n as int).subset_of(mapped.to_set()));
        assert forall|x: int| mapped.to_set().contains(x) implies vstd::set_lib::set_int_range(
            0,
            n as int,
        ).contains(x) by {
            let k = choose|k: int| 0 <= k < mapped.len() && mapped[k] == x;
            assert(body[k] < n);
        }
        vstd::set_lib::lemma_len_subset(
            vstd::set_lib::set_int_range(0, n as int),
            mapped.to_set(),
        );
        mapped.lemma_cardinality_of_set();
        assert(mapped.to_set().len() == mapped.len());
        mapped.lemma_no_dup_set_cardinality();
        assert forall|i: int, j: int| 0 <= i < j < body.len() implies body[i] != body[j] by {
            assert(mapped[i] != mapped[j]);
        }
        assert(body.no_duplicates());
    }
    let cost = match get_path_distance(graph, &path) {
        Ok(c) => c,
        Err(_) => {
            proof {
                assert(path_in_range(path@, g.len() as int));
                assert(eval_open_spec(g, path@) == Ok::<int, TspError>(open_cost(g, path@)));
            }
            unreached()
        },
    };
    Ok((path, cost))
}

} // verus!
