//! The exact solver: exhaustive permutation search over the tour positions
//! `1..n` with position `0` fixed, retaining the first tour of least closed
//! cost, in an unpruned variant that scores every permutation and a pruned
//! variant that skips branches missing a required edge and reports when no
//! Hamiltonian cycle exists.

use vstd::prelude::*;

use crate::cost::closed_cost;
use crate::cost::eval_closed_spec;
use crate::cost::meets_eval_closed;
use crate::cost::open_cost;
use crate::cost::path_in_range;
use crate::graph::is_square;
use crate::graph::lemma_matrix_view;
use crate::graph::TspError;

verus! {

/// The identity path `0, 1, ..., n-1` that the search starts from.
pub open spec fn ident_path(n: int) -> Seq<usize> {
    Seq::new(n as nat, |i: int| i as usize)
}

/// `p` is a candidate tour: it holds each of the `n` vertices exactly once,
/// with vertex `0` fixed at position `0`.
pub open spec fn is_tour_perm(p: Seq<usize>, n: int) -> bool {
    &&& p.len() == n
    &&& n >= 1 ==> p[0] == 0usize
    &&& p.to_multiset() == ident_path(n).to_multiset()
}

/// `q` is reachable from the partial assignment `p` by permuting only the
/// positions from `pos` on: the prefixes agree and the suffixes hold the same
/// vertices.
pub open spec fn completion(q: Seq<usize>, p: Seq<usize>, pos: int) -> bool {
    &&& q.len() == p.len()
    &&& q.subrange(0, pos) == p.subrange(0, pos)
    &&& q.subrange(pos, q.len() as int).to_multiset() == p.subrange(pos, p.len() as int).to_multiset()
}

/// Every edge the closed tour `p` drives over is present in the graph.
pub open spec fn cycle_edges_exist(g: Seq<Seq<u64>>, p: Seq<usize>) -> bool {
    &&& forall|k: int| 0 <= k < p.len() - 1 ==> g[#[trigger] p[k] as int][p[k + 1] as int] != 0
    &&& p.len() >= 1 ==> g[p.last() as int][p[0] as int] != 0
}

/// Computes the closed-tour weight of `path`: the sum along consecutive pairs
/// plus the edge from the last vertex back to the first. Rejects a path that
/// is shorter than two vertices or longer than the graph, or that names a
/// vertex outside it.
pub fn get_path_distance(graph: &Vec<Vec<u64>>, path: &Vec<usize>) -> (r: Result<u128, TspError>)
    requires
        is_square(graph.deep_view()),
    ensures
        meets_eval_closed(graph.deep_view(), path@, r),
{
    let ghost g = graph.deep_view();
    proof {
        lemma_matrix_view(graph);
    }
    let n = graph.len();
    if path.len() < 2 || path.len() > n {
        return Err(TspError::BadPathLength);
    }
    let mut k: usize = 0;
    while k < path.len()
        invariant
            0 <= k <= path@.len(),
            2 <= path@.len() <= n,
            n == g.len(),
            g == graph.deep_view(),
            is_square(g),
            forall|j: int| 0 <= j < k ==> #[trigger] path@[j] < n,
        decreases path@.len() - k,
    {
        if path[k] >= n {
            assert(!path_in_range(path@, g.len() as int));
            return Err(TspError::IndexOutOfRange);
        }
        k = k + 1;
    }
    assert(path_in_range(path@, g.len() as int));
    let mut dist: u128 = 0;
    let mut i: usize = 0;
    proof {
        assert(path@.take(1).len() == 1);
    }
    while i + 1 < path.len()
        invariant
            0 <= i < path@.len(),
            2 <= path@.len() <= n,
            n == g.len(),
            g == graph.deep_view(),
            is_square(g),
            path_in_range(path@, g.len() as int),
            dist as int == open_cost(g, path@.take(i + 1)),
            dist as int <= i * (u64::MAX as int),
        decreases path@.len() - i,
    {
        proof {
            lemma_matrix_view(graph);
            assert(g[path@[i as int] as int].len() == n);
        }
        let a = path[i];
        let b = path[i + 1];
        let w = graph[a][b];
        proof {
            let t2 = path@.take(i + 2);
            assert(t2.drop_last() =~= path@.take(i + 1));
            assert(t2[t2.len() - 2] == path@[i as int]);
            assert(t2[t2.len() - 1] == path@[i + 1]);
            assert(open_cost(g, t2) == dist as int + (w as int));
            assert((i + 1) * (u64::MAX as int) == i * (u64::MAX as int) + (u64::MAX as int));
            assert(i * (u64::MAX as int) <= (usize::MAX as int) * (u64::MAX as int))
                by (nonlinear_arith)
                requires
                    0 <= i as int <= usize::MAX as int,
            ;
        }
        dist = dist + (w as u128);
        i = i + 1;
    }
    proof {
        assert(path@.take(path@.len() as int) =~= path@);
        lemma_matrix_view(graph);
        assert(i * (u64::MAX as int) <= (usize::MAX as int) * (u64::MAX as int))
            by (nonlinear_arith)
            requires
                0 <= i as int <= usize::MAX as int,
        ;
    }
    let a = path[path.len() - 1];
    let b = path[0];
    let w = graph[a][b];
    dist = dist + (w as u128);
    proof {
        assert(dist as int == closed_cost(g, path@));
    }
    Ok(dist)
}

/// A partial assignment completes itself.
proof fn lemma_completion_refl(p: Seq<usize>, pos: int)
    requires
        0 <= pos <= p.len(),
    ensures
        completion(p, p, pos),
{
}

/// At the last position the only completion is the assignment itself.
proof fn lemma_completion_at_end(q: Seq<usize>, p: Seq<usize>)
    requires
        completion(q, p, p.len() as int),
    ensures
        q == p,
{
    assert(q.subrange(0, p.len() as int) =~= q);
    assert(p.subrange(0, p.len() as int) =~= p);
}

/// Exchanging two suffix positions keeps the prefix and the suffix contents.
proof fn lemma_swap_keeps_completion(p: Seq<usize>, pos: int, v: int)
    requires
        0 <= pos <= v < p.len(),
    ensures
        completion(p.update(pos, p[v]).update(v, p[pos]), p, pos),
{
    broadcast use vstd::seq_lib::to_multiset_update;
    broadcast use vstd::seq_lib::to_multiset_contains;
    broadcast use vstd::multiset::group_multiset_axioms;

    let p2 = p.update(pos, p[v]).update(v, p[pos]);
    assert(p2.subrange(0, pos) =~= p.subrange(0, pos));
    let n = p.len() as int;
    let s = p.subrange(pos, n);
    let s2 = p2.subrange(pos, n);
    if v == pos {
        assert(s2 =~= s);
    } else {
        let s1 = s.update(v - pos, s[0]);
        assert(s2 =~= s1.update(0, s[v - pos]));
        assert(s.contains(s[0]) && s.contains(s[v - pos]));
        assert(s.to_multiset().count(s[0]) > 0 && s.to_multiset().count(s[v - pos]) > 0);
        assert(s1.to_multiset() == s.to_multiset().insert(s[0]).remove(s[v - pos]));
        assert(s1[0] == s[0]);
        assert(s2.to_multiset() == s1.to_multiset().insert(s[v - pos]).remove(s1[0]));
        assert(s2.to_multiset() =~= s.to_multiset());
    }
}

/// A completion that already agrees one position further completes the
/// swapped assignment from there.
proof fn lemma_completion_step(q: Seq<usize>, p: Seq<usize>, pos: int, v: int)
    requires
        completion(q, p, pos),
        0 <= pos <= v < p.len(),
        p[v] == q[pos],
    ensures
        completion(q, p.update(pos, p[v]).update(v, p[pos]), pos + 1),
{
    broadcast use vstd::seq_lib::to_multiset_remove;

    let p2 = p.update(pos, p[v]).update(v, p[pos]);
    let n = p.len() as int;
    lemma_swap_keeps_completion(p, pos, v);
    assert(q.subrange(0, pos + 1) =~= p2.subrange(0, pos + 1)) by {
        assert(forall|k: int|
            0 <= k < pos ==> q.subrange(0, pos)[k] == p.subrange(0, pos)[k]);
        assert(q[pos] == p2[pos]);
    }
    let sq = q.subrange(pos, n);
    let s2 = p2.subrange(pos, n);
    assert(sq.to_multiset() == s2.to_multiset());
    assert(sq.remove(0) =~= q.subrange(pos + 1, n));
    assert(s2.remove(0) =~= p2.subrange(pos + 1, n));
    assert(sq[0] == q[pos] && s2[0] == p2[pos] && q[pos] == p2[pos]);
    assert(q.subrange(pos + 1, n).to_multiset() == sq.to_multiset().remove(sq[0]));
    assert(p2.subrange(pos + 1, n).to_multiset() == s2.to_multiset().remove(s2[0]));
}

/// Completions compose across positions.
proof fn lemma_completion_compose(x: Seq<usize>, p2: Seq<usize>, p: Seq<usize>, pos2: int, pos: int)
    requires
        completion(x, p2, pos2),
        completion(p2, p, pos),
        0 <= pos <= pos2 <= p.len(),
    ensures
        completion(x, p, pos),
{
    broadcast use vstd::seq_lib::lemma_multiset_commutative;

    let n = p.len() as int;
    assert forall|k: int| 0 <= k < pos implies x.subrange(0, pos)[k] == p.subrange(0, pos)[k] by {
        assert(x.subrange(0, pos2)[k] == p2.subrange(0, pos2)[k]);
        assert(p2.subrange(0, pos)[k] == p.subrange(0, pos)[k]);
    }
    assert(x.subrange(0, pos) =~= p.subrange(0, pos));
    let xm = x.subrange(pos, pos2);
    let pm = p2.subrange(pos, pos2);
    assert forall|k: int| 0 <= k < pos2 - pos implies xm[k] == pm[k] by {
        assert(x.subrange(0, pos2)[pos + k] == p2.subrange(0, pos2)[pos + k]);
    }
    assert(xm =~= pm);
    assert(x.subrange(pos, n) =~= xm + x.subrange(pos2, n));
    assert(p2.subrange(pos, n) =~= pm + p2.subrange(pos2, n));
    assert((xm + x.subrange(pos2, n)).to_multiset() == xm.to_multiset().add(
        x.subrange(pos2, n).to_multiset(),
    ));
    assert((pm + p2.subrange(pos2, n)).to_multiset() == pm.to_multiset().add(
        p2.subrange(pos2, n).to_multiset(),
    ));
}

/// Some still-open position holds the vertex that the completion places next.
proof fn lemma_completion_pick(q: Seq<usize>, p: Seq<usize>, pos: int)
    requires
        completion(q, p, pos),
        0 <= pos < p.len(),
    ensures
        p.subrange(pos, p.len() as int).contains(q[pos]),
{
    broadcast use vstd::seq_lib::to_multiset_contains;

    let n = p.len() as int;
    let sq = q.subrange(pos, n);
    let sp = p.subrange(pos, n);
    assert(sq[0] == q[pos]);
    assert(sq.contains(q[pos]));
    assert(sq.to_multiset().count(q[pos]) > 0);
    assert(sp.to_multiset().count(q[pos]) > 0);
}

/// The accumulator's cost entry is the closed cost of its path.
pub open spec fn best_sound(g: Seq<Seq<u64>>, b: Option<(Vec<usize>, u128)>) -> bool {
    match b {
        None => true,
        Some(pc) => pc.1 as int == closed_cost(g, pc.0@),
    }
}

/// Explores every permutation of the positions from `pos` on, leaving the
/// earlier positions fixed, and lowers the accumulator to the cheapest closed
/// tour it scores; a tie keeps the tour found first.
pub fn permute_path(
    graph: &Vec<Vec<u64>>,
    path: &mut Vec<usize>,
    pos: usize,
    best: &mut Option<(Vec<usize>, u128)>,
)
    requires
        is_square(graph.deep_view()),
        old(path)@.len() == graph.deep_view().len(),
        2 <= old(path)@.len(),
        path_in_range(old(path)@, graph.deep_view().len() as int),
        1 <= pos <= old(path)@.len(),
        best_sound(graph.deep_view(), *old(best)),
    ensures
        final(path)@ == old(path)@,
        best_sound(graph.deep_view(), *final(best)),
        (*old(best)) matches Some(ob) ==> (*final(best)) matches Some(nb) && nb.1 <= ob.1,
        *final(best) == *old(best) || ((*final(best)) matches Some(nb) && completion(
            nb.0@,
            old(path)@,
            pos as int,
        ) && ((*old(best)) matches Some(ob) ==> nb.1 < ob.1)),
        forall|q: Seq<usize>|
            completion(q, old(path)@, pos as int) ==> ((*final(best)) matches Some(nb)
                && nb.1 as int <= closed_cost(graph.deep_view(), q)),
    decreases graph.deep_view().len() - pos,
{
    let ghost g = graph.deep_view();
    let ghost p0 = path@;
    let ghost b0 = *best;
    let n = path.len();
    if pos == n {
        let r = get_path_distance(graph, path);
        let d = match r {
            Ok(d) => d,
            Err(_) => {
                proof {
                    assert(eval_closed_spec(g, path@) == Ok::<int, TspError>(closed_cost(g, path@)));
                }
                unreached()
            },
        };
        assert(d as int == closed_cost(g, p0));
        let better = match &*best {
            None => true,
            Some(pc) => d < pc.1,
        };
        if better {
            *best = Some((path.clone(), d));
            assert(path@ == p0);
        }
        proof {
            lemma_completion_refl(p0, pos as int);
            assert forall|q: Seq<usize>| completion(q, p0, pos as int) implies (*best)
                matches Some(nb) && nb.1 as int <= closed_cost(g, q) by {
                lemma_completion_at_end(q, p0);
            }
        }
        return ;
    }
    let mut v = pos;
    while v < n
        invariant
            pos < n,
            n == p0.len(),
            g == graph.deep_view(),
            is_square(g),
            2 <= n == g.len(),
            path_in_range(p0, g.len() as int),
            1 <= pos <= v <= n,
            path@ == p0,
            best_sound(g, *best),
            b0 matches Some(ob) ==> (*best) matches Some(nb) && nb.1 <= ob.1,
            *best == b0 || ((*best) matches Some(nb) && completion(nb.0@, p0, pos as int) && (
            b0 matches Some(ob) ==> nb.1 < ob.1)),
            forall|q: Seq<usize>|
                completion(q, p0, pos as int) && p0.subrange(pos as int, v as int).contains(
                    q[pos as int],
                ) ==> ((*best) matches Some(nb) && nb.1 as int <= closed_cost(g, q)),
        decreases n - v,
    {
        let ghost bprev = *best;
        let a = path[pos];
        let b = path[v];
        path.set(pos, b);
        path.set(v, a);
        let ghost p2 = path@;
        proof {
            assert(p2 == p0.update(pos as int, p0[v as int]).update(v as int, p0[pos as int]));
            lemma_swap_keeps_completion(p0, pos as int, v as int);
            assert(path_in_range(p2, g.len() as int)) by {
                assert(forall|k: int|
                    0 <= k < p2.len() ==> p2[k] == p0[k] || p2[k] == p0[pos as int] || p2[k]
                        == p0[v as int]);
            }
        }
        permute_path(graph, path, pos + 1, best);
        let a2 = path[pos];
        let b2 = path[v];
        path.set(pos, b2);
        path.set(v, a2);
        proof {
            assert(path@ =~= p0);
            // the accumulator still carries a genuine completion of `p0`
            if *best != bprev {
                let nb = (*best)->Some_0;
                lemma_completion_compose(nb.0@, p2, p0, pos as int + 1, pos as int);
            }
            // everything whose next vertex was already scanned stays beaten
            assert forall|q: Seq<usize>|
                completion(q, p0, pos as int) && p0.subrange(pos as int, v as int + 1).contains(
                    q[pos as int],
                ) implies (*best) matches Some(nb) && nb.1 as int <= closed_cost(g, q) by {
                let sub1 = p0.subrange(pos as int, v as int);
                let sub2 = p0.subrange(pos as int, v as int + 1);
                if sub1.contains(q[pos as int]) {
                    assert(bprev matches Some(pb) && pb.1 as int <= closed_cost(g, q));
                } else {
                    assert(forall|k: int| 0 <= k < sub1.len() ==> sub2[k] == sub1[k]);
                    assert(q[pos as int] == p0[v as int]) by {
                        let k = choose|k: int| 0 <= k < sub2.len() && sub2[k] == q[pos as int];
                        assert(k == sub2.len() - 1);
                    }
                    lemma_completion_step(q, p0, pos as int, v as int);
                    assert(completion(q, p2, pos as int + 1));
                }
            }
        }
        v = v + 1;
    }
    proof {
        assert forall|q: Seq<usize>| completion(q, p0, pos as int) implies (*best)
            matches Some(nb) && nb.1 as int <= closed_cost(g, q) by {
            lemma_completion_pick(q, p0, pos as int);
        }
    }
}

/// The candidate tours are exactly the completions of the identity path with
/// position `0` left fixed.
proof fn lemma_tour_perm_is_completion(q: Seq<usize>, n: int)
    requires
        n >= 1,
    ensures
        is_tour_perm(q, n) <==> (q.len() == n && completion(q, ident_path(n), 1)),
{
    broadcast use vstd::seq_lib::to_multiset_remove;

    let id = ident_path(n);
    assert(id.len() == n && id[0] == 0usize);
    if q.len() == n {
        assert(q.remove(0) =~= q.subrange(1, n));
        assert(id.remove(0) =~= id.subrange(1, n));
        assert(q.subrange(1, n).to_multiset() == q.to_multiset().remove(q[0]));
        assert(id.subrange(1, n).to_multiset() == id.to_multiset().remove(0usize));
        if is_tour_perm(q, n) {
            assert(q.subrange(0, 1) =~= id.subrange(0, 1));
        }
        if completion(q, id, 1) {
            assert(q[0] == q.subrange(0, 1)[0] && id[0] == id.subrange(0, 1)[0]);
            assert(q[0] == 0usize);
            // rebuild the full multisets from the shared head and equal tails
            assert(q =~= q.subrange(0, 1) + q.subrange(1, n));
            assert(id =~= id.subrange(0, 1) + id.subrange(1, n));
            vstd::seq_lib::lemma_multiset_commutative(q.subrange(0, 1), q.subrange(1, n));
            vstd::seq_lib::lemma_multiset_commutative(id.subrange(0, 1), id.subrange(1, n));
            assert(q.subrange(0, 1) =~= id.subrange(0, 1));
        }
    }
}

/// Finds the cheapest closed tour over all permutations of `1..n` with vertex
/// `0` fixed first, scoring every permutation whether or not its edges exist;
/// a zero entry contributes nothing to a scored tour, so on an incomplete
/// graph the caller must prefer the pruned search to learn whether a
/// Hamiltonian cycle exists at all.
pub fn hamiltonian_cycle(graph: &Vec<Vec<u64>>) -> (r: Option<(Vec<usize>, u128)>)
    requires
        is_square(graph.deep_view()),
        graph.deep_view().len() >= 2,
    ensures
        r is Some,
        r matches Some(pc) ==> {
            &&& is_tour_perm(pc.0@, graph.deep_view().len() as int)
            &&& pc.1 as int == closed_cost(graph.deep_view(), pc.0@)
            &&& forall|q: Seq<usize>|
                is_tour_perm(q, graph.deep_view().len() as int) ==> pc.1 as int <= closed_cost(
                    graph.deep_view(),
                    q,
                )
        },
{
    let ghost g = graph.deep_view();
    let n = graph.len();
    let mut path: Vec<usize> = Vec::new();
    let mut i: usize = 0;
    while i < n
        invariant
            0 <= i <= n,
            path@.len() == i,
            forall|k: int| 0 <= k < i ==> #[trigger] path@[k] == k as usize,
        decreases n - i,
    {
        path.push(i);
        i = i + 1;
    }
    proof {
        assert(path@ =~= ident_path(n as int));
        assert(path_in_range(path@, n as int));
    }
    let mut best: Option<(Vec<usize>, u128)> = None;
    permute_path(graph, &mut path, 1, &mut best);
    proof {
        lemma_completion_refl(ident_path(n as int), 1);
        assert(best is Some);
        let nb = best->Some_0;
        assert(completion(nb.0@, ident_path(n as int), 1));
        lemma_tour_perm_is_completion(nb.0@, n as int);
        assert forall|q: Seq<usize>| is_tour_perm(q, n as int) implies nb.1 as int <= closed_cost(
            g,
            q,
        ) by {
            lemma_tour_perm_is_completion(q, n as int);
        }
    }
    best
}

/// Every edge the partial assignment already commits to, up to position
/// `pos`, is present in the graph.
pub open spec fn prefix_edges_exist(g: Seq<Seq<u64>>, p: Seq<usize>, pos: int) -> bool {
    forall|k: int| 0 <= k < pos - 1 ==> g[#[trigger] p[k] as int][p[k + 1] as int] != 0
}

/// The accumulator of the pruned search holds only genuine Hamiltonian
/// cycles, priced correctly.
pub open spec fn best_sound_pruned(g: Seq<Seq<u64>>, b: Option<(Vec<usize>, u128)>) -> bool {
    match b {
        None => true,
        Some(pc) => pc.1 as int == closed_cost(g, pc.0@) && cycle_edges_exist(g, pc.0@),
    }
}

/// Exchanging two positions of a duplicate-free assignment keeps it
/// duplicate-free.
proof fn lemma_swap_no_duplicates(p: Seq<usize>, pos: int, v: int)
    requires
        p.no_duplicates(),
        0 <= pos <= v < p.len(),
    ensures
        p.update(pos, p[v]).update(v, p[pos]).no_duplicates(),
{
    let p2 = p.update(pos, p[v]).update(v, p[pos]);
    assert forall|i: int, j: int| 0 <= i < j < p2.len() implies p2[i] != p2[j] by {
        assert(p2[i] == p[if i == pos { v } else if i == v { pos } else { i }]);
        assert(p2[j] == p[if j == pos { v } else if j == v { pos } else { j }]);
    }
}

/// The pruned permutation search: before recursing it demands the edge into
/// the candidate vertex and a candidate not already placed, and a complete
/// assignment is scored only when its closing edge exists, so the accumulator
/// only ever holds real Hamiltonian cycles.
pub fn permute_path_pruned(
    graph: &Vec<Vec<u64>>,
    path: &mut Vec<usize>,
    pos: usize,
    best: &mut Option<(Vec<usize>, u128)>,
)
    requires
        is_square(graph.deep_view()),
        old(path)@.len() == graph.deep_view().len(),
        2 <= old(path)@.len(),
        path_in_range(old(path)@, graph.deep_view().len() as int),
        old(path)@.no_duplicates(),
        1 <= pos <= old(path)@.len(),
        prefix_edges_exist(graph.deep_view(), old(path)@, pos as int),
        best_sound_pruned(graph.deep_view(), *old(best)),
    ensures
        final(path)@ == old(path)@,
        best_sound_pruned(graph.deep_view(), *final(best)),
        (*old(best)) matches Some(ob) ==> (*final(best)) matches Some(nb) && nb.1 <= ob.1,
        *final(best) == *old(best) || ((*final(best)) matches Some(nb) && completion(
            nb.0@,
            old(path)@,
            pos as int,
        ) && ((*old(best)) matches Some(ob) ==> nb.1 < ob.1)),
        forall|q: Seq<usize>|
            completion(q, old(path)@, pos as int) && cycle_edges_exist(graph.deep_view(), q)
                ==> ((*final(best)) matches Some(nb) && nb.1 as int <= closed_cost(
                graph.deep_view(),
                q,
            )),
    decreases graph.deep_view().len() - pos,
{
    let ghost g = graph.deep_view();
    let ghost p0 = path@;
    let ghost b0 = *best;
    proof {
        lemma_matrix_view(graph);
    }
    let n = path.len();
    if pos == n {
        let closing = graph[path[n - 1]][path[0]];
        if closing != 0 {
            assert(cycle_edges_exist(g, p0));
            let r = get_path_distance(graph, path);
            let d = match r {
                Ok(d) => d,
                Err(_) => {
                    proof {
                        assert(eval_closed_spec(g, path@) == Ok::<int, TspError>(
                            closed_cost(g, path@),
                        ));
                    }
                    unreached()
                },
            };
            assert(d as int == closed_cost(g, p0));
            let better = match &*best {
                None => true,
                Some(pc) => d < pc.1,
            };
            if better {
                *best = Some((path.clone(), d));
                assert(path@ == p0);
            }
            proof {
                lemma_completion_refl(p0, pos as int);
                assert forall|q: Seq<usize>|
                    completion(q, p0, pos as int) && cycle_edges_exist(g, q) implies (*best)
                    matches Some(nb) && nb.1 as int <= closed_cost(g, q) by {
                    lemma_completion_at_end(q, p0);
                }
            }
        } else {
            proof {
                assert forall|q: Seq<usize>|
                    completion(q, p0, pos as int) && cycle_edges_exist(g, q) implies (*best)
                    matches Some(nb) && nb.1 as int <= closed_cost(g, q) by {
                    lemma_completion_at_end(q, p0);
                    assert(!cycle_edges_exist(g, q));
                }
            }
        }
        return ;
    }
    let mut v = pos;
    while v < n
        invariant
            pos < n,
            n == p0.len(),
            g == graph.deep_view(),
            is_square(g),
            2 <= n == g.len(),
            path_in_range(p0, g.len() as int),
            p0.no_duplicates(),
            prefix_edges_exist(g, p0, pos as int),
            1 <= pos <= v <= n,
            path@ == p0,
            best_sound_pruned(g, *best),
            b0 matches Some(ob) ==> (*best) matches Some(nb) && nb.1 <= ob.1,
            *best == b0 || ((*best) matches Some(nb) && completion(nb.0@, p0, pos as int) && (
            b0 matches Some(ob) ==> nb.1 < ob.1)),
            forall|q: Seq<usize>|
                completion(q, p0, pos as int) && cycle_edges_exist(g, q) && p0.subrange(
                    pos as int,
                    v as int,
                ).contains(q[pos as int]) ==> ((*best) matches Some(nb) && nb.1 as int
                    <= closed_cost(g, q)),
        decreases n - v,
    {
        let ghost bprev = *best;
        let cand = path[v];
        // the candidate must not already occupy an earlier position
        let mut dup = false;
        let mut k: usize = 0;
        while k < pos
            invariant
                0 <= k <= pos <= v < n == path@.len(),
                path@ == p0,
                p0.no_duplicates(),
                cand == p0[v as int],
                !dup,
            decreases pos - k,
        {
            if path[k] == cand {
                dup = true;
            }
            k = k + 1;
        }
        // and the edge from the vertex before it must exist
        proof {
            assert(g[p0[pos as int - 1] as int].len() == n);
        }
        let w = graph[path[pos - 1]][path[v]];
        if !dup && w != 0 {
            let a = path[pos];
            let b = path[v];
            path.set(pos, b);
            path.set(v, a);
            let ghost p2 = path@;
            proof {
                assert(p2 == p0.update(pos as int, p0[v as int]).update(v as int, p0[pos as int]));
                lemma_swap_keeps_completion(p0, pos as int, v as int);
                lemma_swap_no_duplicates(p0, pos as int, v as int);
                assert(path_in_range(p2, g.len() as int)) by {
                    assert(forall|j: int|
                        0 <= j < p2.len() ==> p2[j] == p0[j] || p2[j] == p0[pos as int] || p2[j]
                            == p0[v as int]);
                }
                assert(prefix_edges_exist(g, p2, pos as int + 1)) by {
                    assert(forall|j: int| 0 <= j < pos ==> p2[j] == p0[j]);
                    assert(p2[pos as int] == p0[v as int]);
                    assert(g[p2[pos as int - 1] as int][p2[pos as int] as int] != 0);
                }
            }
            permute_path_pruned(graph, path, pos + 1, best);
            let a2 = path[pos];
            let b2 = path[v];
            path.set(pos, b2);
            path.set(v, a2);
            proof {
                assert(path@ =~= p0);
                if *best != bprev {
                    let nb = (*best)->Some_0;
                    lemma_completion_compose(nb.0@, p2, p0, pos as int + 1, pos as int);
                }
                assert forall|q: Seq<usize>|
                    completion(q, p0, pos as int) && cycle_edges_exist(g, q) && p0.subrange(
                        pos as int,
                        v as int + 1,
                    ).contains(q[pos as int]) implies (*best) matches Some(nb) && nb.1 as int
                    <= closed_cost(g, q) by {
                    let sub1 = p0.subrange(pos as int, v as int);
                    let sub2 = p0.subrange(pos as int, v as int + 1);
                    if sub1.contains(q[pos as int]) {
                        assert(bprev matches Some(pb) && pb.1 as int <= closed_cost(g, q));
                    } else {
                        assert(forall|j: int| 0 <= j < sub1.len() ==> sub2[j] == sub1[j]);
                        assert(q[pos as int] == p0[v as int]) by {
                            let j = choose|j: int|
                                0 <= j < sub2.len() && sub2[j] == q[pos as int];
                            assert(j == sub2.len() - 1);
                        }
                        lemma_completion_step(q, p0, pos as int, v as int);
                        assert(completion(q, p2, pos as int + 1));
                    }
                }
            }
        } else {
            proof {
                // a pruned candidate admits no Hamiltonian completion here:
                // the duplicate test cannot fire on a duplicate-free path, so
                // the edge into the candidate is missing, and every
                // completion placing it next would drive over that edge
                assert forall|q: Seq<usize>|
                    completion(q, p0, pos as int) && cycle_edges_exist(g, q) && p0.subrange(
                        pos as int,
                        v as int + 1,
                    ).contains(q[pos as int]) implies (*best) matches Some(nb) && nb.1 as int
                    <= closed_cost(g, q) by {
                    let sub1 = p0.subrange(pos as int, v as int);
                    let sub2 = p0.subrange(pos as int, v as int + 1);
                    if sub1.contains(q[pos as int]) {
                        assert(bprev matches Some(pb) && pb.1 as int <= closed_cost(g, q));
                    } else {
                        assert(forall|j: int| 0 <= j < sub1.len() ==> sub2[j] == sub1[j]);
                        assert(q[pos as int] == p0[v as int]) by {
                            let j = choose|j: int|
                                0 <= j < sub2.len() && sub2[j] == q[pos as int];
                            assert(j == sub2.len() - 1);
                        }
                        assert(q[pos as int - 1] == p0[pos as int - 1]) by {
                            assert(q.subrange(0, pos as int)[pos as int - 1] == p0.subrange(
                                0,
                                pos as int,
                            )[pos as int - 1]);
                        }
                        assert(g[q[pos as int - 1] as int][q[pos as int] as int] != 0);
                        assert(false);
                    }
                }
            }
        }
        v = v + 1;
    }
    proof {
        assert forall|q: Seq<usize>|
            completion(q, p0, pos as int) && cycle_edges_exist(g, q) implies (*best)
            matches Some(nb) && nb.1 as int <= closed_cost(g, q) by {
            lemma_completion_pick(q, p0, pos as int);
        }
    }
}

/// A candidate tour names each vertex of the graph once, so its entries are
/// distinct and in range.
pub proof fn lemma_tour_perm_props(q: Seq<usize>, n: int)
    requires
        is_tour_perm(q, n),
        1 <= n <= usize::MAX,
    ensures
        q.no_duplicates(),
        forall|k: int| 0 <= k < q.len() ==> #[trigger] q[k] < n,
{
    broadcast use vstd::seq_lib::to_multiset_contains;

    let id = ident_path(n);
    assert forall|i: int, j: int| 0 <= i < j < id.len() implies id[i] != id[j] by {
        assert(id[i] == i as usize && id[j] == j as usize);
    }
    assert(id.no_duplicates());
    id.lemma_multiset_has_no_duplicates();
    q.lemma_multiset_has_no_duplicates_conv();
    assert forall|k: int| 0 <= k < q.len() implies #[trigger] q[k] < n by {
        assert(q.contains(q[k]));
        assert(q.to_multiset().count(q[k]) > 0);
        assert(id.contains(q[k]));
        let j = choose|j: int| 0 <= j < id.len() && id[j] == q[k];
        assert(q[k] == j as usize);
    }
}

/// What the exact searcher owes: `None` exactly when no candidate tour drives
/// only over existing edges, and otherwise the first-found cheapest such
/// tour, priced with its closing edge.
pub open spec fn meets_exact_search(g: Seq<Seq<u64>>, r: Option<(Vec<usize>, u128)>) -> bool {
    match r {
        None => forall|q: Seq<usize>|
            is_tour_perm(q, g.len() as int) ==> !cycle_edges_exist(g, q),
        Some(pc) => {
            &&& is_tour_perm(pc.0@, g.len() as int)
            &&& cycle_edges_exist(g, pc.0@)
            &&& pc.1 as int == closed_cost(g, pc.0@)
            &&& forall|q: Seq<usize>|
                is_tour_perm(q, g.len() as int) && cycle_edges_exist(g, q) ==> pc.1 as int
                    <= closed_cost(g, q)
        },
    }
}

/// The pruned exact search: the cheapest Hamiltonian cycle with vertex `0`
/// fixed first, or `None` when the graph holds no Hamiltonian cycle at all.
pub fn hamiltonian_cycle_pruned(graph: &Vec<Vec<u64>>) -> (r: Option<(Vec<usize>, u128)>)
    requires
        is_square(graph.deep_view()),
        graph.deep_view().len() >= 2,
    ensures
        meets_exact_search(graph.deep_view(), r),
{
    let ghost g = graph.deep_view();
    let n = graph.len();
    let mut path: Vec<usize> = Vec::new();
    let mut i: usize = 0;
    while i < n
        invariant
            0 <= i <= n,
            path@.len() == i,
            forall|k: int| 0 <= k < i ==> #[trigger] path@[k] == k as usize,
        decreases n - i,
    {
        path.push(i);
        i = i + 1;
    }
    proof {
        assert(path@ =~= ident_path(n as int));
        assert(path_in_range(path@, n as int));
        assert(path@.no_duplicates());
    }
    let mut best: Option<(Vec<usize>, u128)> = None;
    permute_path_pruned(graph, &mut path, 1, &mut best);
    proof {
        if best is Some {
            let nb = best->Some_0;
            assert(completion(nb.0@, ident_path(n as int), 1));
            lemma_tour_perm_is_completion(nb.0@, n as int);
        }
        assert forall|q: Seq<usize>| is_tour_perm(q, n as int) && cycle_edges_exist(g, q) implies
            (best matches Some(nb) && nb.1 as int <= closed_cost(g, q)) by {
            lemma_tour_perm_is_completion(q, n as int);
        }
    }
    best
}

/// All edges between distinct vertices are present.
pub open spec fn complete_graph(g: Seq<Seq<u64>>) -> bool {
    forall|i: int, j: int| 0 <= i < g.len() && 0 <= j < g.len() && i != j ==> g[i][j] != 0
}

/// No edge joins two vertices other than vertex `0`: the star shape around
/// center `0`.
pub open spec fn no_leaf_edges(g: Seq<Seq<u64>>) -> bool {
    forall|i: int, j: int| 1 <= i < g.len() && 1 <= j < g.len() ==> g[i][j] == 0
}

/// Law: on a complete graph the exact search never reports "no solution".
pub proof fn lemma_exact_search_complete_finds_tour(
    g: Seq<Seq<u64>>,
    r: Option<(Vec<usize>, u128)>,
)
    requires
        2 <= g.len() <= usize::MAX,
        complete_graph(g),
        meets_exact_search(g, r),
    ensures
        r is Some,
{
    if r is None {
        let n = g.len() as int;
        let id = ident_path(n);
        assert(is_tour_perm(id, n));
        assert forall|k: int| 0 <= k < n - 1 implies g[#[trigger] id[k] as int][id[k + 1] as int]
            != 0 by {
            assert(id[k] == k as usize && id[k + 1] == (k + 1) as usize);
        }
        assert(id.last() == (n - 1) as usize && id[0] == 0usize);
        assert(g[id.last() as int][id[0] as int] != 0);
        assert(cycle_edges_exist(g, id));
        assert(!cycle_edges_exist(g, id));
    }
}

/// Law: in a star with three or more vertices every candidate tour must drive
/// between two leaves, so the exact search reports "no solution".
pub proof fn lemma_exact_search_star_has_no_tour(g: Seq<Seq<u64>>, r: Option<(Vec<usize>, u128)>)
    requires
        3 <= g.len() <= usize::MAX,
        no_leaf_edges(g),
        meets_exact_search(g, r),
    ensures
        r is None,
{
    if r is Some {
        let n = g.len() as int;
        let q = r->Some_0.0@;
        lemma_tour_perm_props(q, n);
        assert(q[0] == 0usize);
        assert(q[1] != 0usize && q[2] != 0usize);
        assert(g[q[1] as int][q[2] as int] == 0);
        assert(g[q[1] as int][q[2] as int] != 0);
    }
}

/// Exact solving end to end: reject a malformed matrix or one with fewer
/// than two vertices, then search for the cheapest Hamiltonian cycle,
/// reporting `Ok(None)` when the graph holds none.
pub fn solve_tsp(graph: &Vec<Vec<u64>>) -> (r: Result<Option<(Vec<usize>, u128)>, TspError>)
    ensures
        r == Err::<Option<(Vec<usize>, u128)>, TspError>(TspError::NotSquare) <==> !is_square(
            graph.deep_view(),
        ),
        is_square(graph.deep_view()) ==> (r == Err::<Option<(Vec<usize>, u128)>, TspError>(
            TspError::NonZeroDiagonal,
        ) <==> !crate::graph::zero_diagonal(graph.deep_view())),
        crate::graph::valid_graph(graph.deep_view()) ==> (r == Err::<
            Option<(Vec<usize>, u128)>,
            TspError,
        >(TspError::TooFewVertices) <==> graph.deep_view().len() < 2),
        crate::graph::valid_graph(graph.deep_view()) && graph.deep_view().len() >= 2 ==> (r
            matches Ok(o) && meets_exact_search(graph.deep_view(), o)),
{
    match crate::graph::validate_graph(graph) {
        Err(e) => Err(e),
        Ok(()) => {
            if graph.len() < 2 {
                Err(TspError::TooFewVertices)
            } else {
                Ok(hamiltonian_cycle_pruned(graph))
            }
        },
    }
}

} // verus!
