//! The cost model of the tour evaluator: the weight of an open path is the
//! sum of the entries along its consecutive pairs; a closed tour additionally
//! pays the edge from the last vertex back to the first.

use vstd::prelude::*;

use crate::graph::TspError;

verus! {

/// Every entry of `p` names a vertex of a graph with `n` vertices.
pub open spec fn path_in_range(p: Seq<usize>, n: int) -> bool {
    forall|k: int| 0 <= k < p.len() ==> #[trigger] p[k] < n
}

/// The summed weight of the consecutive pairs of `p`.
pub open spec fn open_cost(g: Seq<Seq<u64>>, p: Seq<usize>) -> int
    decreases p.len(),
{
    if p.len() < 2 {
        0
    } else {
        open_cost(g, p.drop_last()) + g[p[p.len() - 2] as int][p[p.len() - 1] as int]
    }
}

/// The open cost plus the closing edge from the last vertex back to the first.
pub open spec fn closed_cost(g: Seq<Seq<u64>>, p: Seq<usize>) -> int {
    if p.len() == 0 {
        0
    } else {
        open_cost(g, p) + g[p.last() as int][p[0] as int]
    }
}

/// What evaluating an open path returns: its cost, or the error owed to a
/// path of the wrong length or one naming a vertex outside the graph.
pub open spec fn eval_open_spec(g: Seq<Seq<u64>>, p: Seq<usize>) -> Result<int, TspError> {
    if p.len() < 2 || p.len() > g.len() + 1 {
        Err(TspError::BadPathLength)
    } else if !path_in_range(p, g.len() as int) {
        Err(TspError::IndexOutOfRange)
    } else {
        Ok(open_cost(g, p))
    }
}

/// What evaluating a closed tour returns, with the closing edge included.
pub open spec fn eval_closed_spec(g: Seq<Seq<u64>>, p: Seq<usize>) -> Result<int, TspError> {
    if p.len() < 2 || p.len() > g.len() {
        Err(TspError::BadPathLength)
    } else if !path_in_range(p, g.len() as int) {
        Err(TspError::IndexOutOfRange)
    } else {
        Ok(closed_cost(g, p))
    }
}

/// `r` is what the open evaluator owes for `g` and `p`.
pub open spec fn meets_eval_open(g: Seq<Seq<u64>>, p: Seq<usize>, r: Result<u128, TspError>) -> bool {
    match r {
        Ok(c) => Ok::<int, TspError>(c as int) == eval_open_spec(g, p),
        Err(e) => Err::<int, TspError>(e) == eval_open_spec(g, p),
    }
}

/// `r` is what the closed evaluator owes for `g` and `p`.
pub open spec fn meets_eval_closed(g: Seq<Seq<u64>>, p: Seq<usize>, r: Result<u128, TspError>) -> bool {
    match r {
        Ok(c) => Ok::<int, TspError>(c as int) == eval_closed_spec(g, p),
        Err(e) => Err::<int, TspError>(e) == eval_closed_spec(g, p),
    }
}

/// Law: a closed tour costs the same as the open path obtained by appending
/// the start vertex to it again.
pub proof fn lemma_closed_cost_is_reappended_open_cost(g: Seq<Seq<u64>>, p: Seq<usize>)
    requires
        p.len() >= 1,
    ensures
        closed_cost(g, p) == open_cost(g, p.push(p[0])),
{
    let q = p.push(p[0]);
    assert(q.drop_last() =~= p);
    assert(q[q.len() - 2] == p.last());
    assert(q[q.len() - 1] == p[0]);
}

/// Law: evaluation is repeatable. Any two results that the open evaluator's
/// contract admits for the same graph and path are equal, so calling it twice
/// on the same input returns the same answer.
pub proof fn lemma_open_evaluation_idempotent(
    g: Seq<Seq<u64>>,
    p: Seq<usize>,
    r1: Result<u128, TspError>,
    r2: Result<u128, TspError>,
)
    requires
        meets_eval_open(g, p, r1),
        meets_eval_open(g, p, r2),
    ensures
        r1 == r2,
{
}

/// Law: evaluation of a closed tour is repeatable in the same sense.
pub proof fn lemma_closed_evaluation_idempotent(
    g: Seq<Seq<u64>>,
    p: Seq<usize>,
    r1: Result<u128, TspError>,
    r2: Result<u128, TspError>,
)
    requires
        meets_eval_closed(g, p, r1),
        meets_eval_closed(g, p, r2),
    ensures
        r1 == r2,
{
}

} // verus!
