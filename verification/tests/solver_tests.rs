use tsp::approx;
use tsp::exact;
use tsp::graph::validate_graph;
use tsp::graph::TspError;
use tsp::mst::mst_to_multigraph;
use tsp::mst::prim_mst;

fn square4() -> Vec<Vec<u64>> {
    vec![
        vec![0, 10, 15, 20],
        vec![10, 0, 35, 25],
        vec![15, 35, 0, 30],
        vec![20, 25, 30, 0],
    ]
}

fn two_cities() -> Vec<Vec<u64>> {
    vec![vec![0, 5], vec![5, 0]]
}

fn star3() -> Vec<Vec<u64>> {
    vec![vec![0, 1, 1], vec![1, 0, 0], vec![1, 0, 0]]
}

fn line_metric4() -> Vec<Vec<u64>> {
    // four points on a line at coordinates 0, 1, 2, 4
    vec![
        vec![0, 1, 2, 4],
        vec![1, 0, 1, 3],
        vec![2, 1, 0, 2],
        vec![4, 3, 2, 0],
    ]
}

#[test]
fn exact_four_vertex_complete_costs_80() {
    let g = square4();
    let r = exact::solve_tsp(&g).unwrap().unwrap();
    assert_eq!(r.1, 80);
    assert_eq!(r.0[0], 0);
    assert_eq!(r.0.len(), 4);
}

#[test]
fn exact_two_vertex_there_and_back_costs_10() {
    let g = two_cities();
    let r = exact::solve_tsp(&g).unwrap().unwrap();
    assert_eq!(r.1, 10);
    assert_eq!(r.0, vec![0, 1]);
}

#[test]
fn approximate_two_vertex_returns_0_1_0() {
    let g = two_cities();
    let (path, cost) = approx::solve_tsp(&g).unwrap();
    assert_eq!(path, vec![0, 1, 0]);
    assert_eq!(cost, 10);
}

#[test]
fn star_has_no_hamiltonian_cycle() {
    let g = star3();
    assert_eq!(exact::solve_tsp(&g).unwrap(), None);
}

#[test]
fn star_still_has_an_approximate_traversal() {
    // The exact search refuses the star (no cycle among the leaves exists),
    // but the preorder walk still emits every vertex once and closes on the
    // start: the missing leaf-to-leaf edge is simply priced at zero. The two
    // solvers intentionally disagree on such graphs.
    let g = star3();
    let (path, cost) = approx::solve_tsp(&g).unwrap();
    assert_eq!(path.len(), 4);
    assert_eq!(path[0], 0);
    assert_eq!(path[3], 0);
    let mut middle = vec![path[1], path[2]];
    middle.sort();
    assert_eq!(middle, vec![1, 2]);
    assert_eq!(path, vec![0, 1, 2, 0]);
    assert_eq!(cost, 2);
}

#[test]
fn unpruned_search_matches_pruned_on_complete_graph() {
    let g = square4();
    let unpruned = exact::hamiltonian_cycle(&g).unwrap();
    let pruned = exact::hamiltonian_cycle_pruned(&g).unwrap();
    assert_eq!(unpruned.1, 80);
    assert_eq!(pruned.1, 80);
    assert_eq!(unpruned.0, pruned.0);
}

#[test]
fn permute_path_finds_the_two_vertex_cycle() {
    let g = two_cities();
    let mut path = vec![0, 1];
    let mut best: Option<(Vec<usize>, u128)> = None;
    exact::permute_path(&g, &mut path, 1, &mut best);
    let (bp, bc) = best.unwrap();
    assert_eq!(bp, vec![0, 1]);
    assert_eq!(bc, 10);
    assert_eq!(path, vec![0, 1]);
}

#[test]
fn pruned_permute_path_skips_missing_edges() {
    let g = star3();
    let mut path = vec![0, 1, 2];
    let mut best: Option<(Vec<usize>, u128)> = None;
    exact::permute_path_pruned(&g, &mut path, 1, &mut best);
    assert_eq!(best, None);
}

#[test]
fn closed_tour_equals_open_tour_with_closing_vertex() {
    let g = square4();
    let closed = exact::get_path_distance(&g, &vec![0, 1, 3, 2]).unwrap();
    let open = approx::get_path_distance(&g, &vec![0, 1, 3, 2, 0]).unwrap();
    assert_eq!(closed, 80);
    assert_eq!(open, 80);
}

#[test]
fn evaluation_is_repeatable() {
    let g = square4();
    let path = vec![0, 2, 1, 3, 0];
    let first = approx::get_path_distance(&g, &path).unwrap();
    let second = approx::get_path_distance(&g, &path).unwrap();
    assert_eq!(first, second);
}

#[test]
fn evaluator_rejects_short_and_out_of_range_paths() {
    let g = two_cities();
    assert_eq!(
        approx::get_path_distance(&g, &vec![0]),
        Err(TspError::BadPathLength)
    );
    assert_eq!(
        approx::get_path_distance(&g, &vec![0, 5]),
        Err(TspError::IndexOutOfRange)
    );
    assert_eq!(
        exact::get_path_distance(&g, &vec![0, 1, 0]),
        Err(TspError::BadPathLength)
    );
    assert_eq!(
        exact::get_path_distance(&g, &vec![0, 7]),
        Err(TspError::IndexOutOfRange)
    );
}

#[test]
fn mst_of_square4_has_three_edges_of_total_weight_45() {
    let g = square4();
    let mst = prim_mst(&g).unwrap();
    let mut edges = 0;
    let mut total = 0u64;
    for row in &mst {
        for &w in row {
            if w != 0 {
                edges += 1;
                total += w;
            }
        }
    }
    assert_eq!(edges, 3);
    // the minimum spanning tree keeps the three lightest edges 10, 15, 20
    assert_eq!(total, 45);
}

#[test]
fn mst_of_the_metric_line_keeps_the_chain() {
    // the chain edges 0-1, 1-2, 2-3 (weights 1, 1, 2) beat every alternative
    let g = line_metric4();
    let mst = prim_mst(&g).unwrap();
    let mut total = 0u64;
    for row in &mst {
        for &w in row {
            total += w;
        }
    }
    assert_eq!(total, 4);
    assert_eq!(mst[0][1], 1);
    assert_eq!(mst[1][2], 1);
    assert_eq!(mst[2][3], 2);
}

#[test]
fn doubling_gives_even_degrees_and_twice_the_edges() {
    let g = square4();
    let mst = prim_mst(&g).unwrap();
    let n = mst.len();
    let mut before = 0;
    for i in 0..n {
        for j in 0..n {
            if mst[i][j] != 0 {
                before += 1;
            }
        }
    }
    let doubled = mst_to_multigraph(mst);
    let mut after = 0;
    for i in 0..n {
        for j in 0..n {
            if doubled[i][j] != 0 {
                after += 1;
            }
        }
    }
    assert_eq!(after, 2 * before);
    for v in 0..n {
        let mut degree = 0;
        for j in 0..n {
            if doubled[v][j] != 0 {
                degree += 1;
            }
            if doubled[j][v] != 0 {
                degree += 1;
            }
        }
        assert_eq!(degree % 2, 0);
    }
}

#[test]
fn doubler_mirrors_each_stored_edge() {
    let mst = vec![vec![0, 5], vec![0, 0]];
    let doubled = mst_to_multigraph(mst);
    assert_eq!(doubled, vec![vec![0, 5], vec![5, 0]]);
}

#[test]
fn children_are_the_unvisited_neighbours_in_ascending_order() {
    let g = star3();
    let doubled = mst_to_multigraph(prim_mst(&g).unwrap());
    let none_visited: Vec<usize> = Vec::new();
    assert_eq!(
        tsp::approx::get_all_children_verteces(0, &none_visited, &doubled),
        vec![1, 2]
    );
    let one_visited = vec![1];
    assert_eq!(
        tsp::approx::get_all_children_verteces(0, &one_visited, &doubled),
        vec![2]
    );
}

#[test]
fn preorder_walk_emits_postorder_ending_at_the_start() {
    let g = two_cities();
    let doubled = mst_to_multigraph(prim_mst(&g).unwrap());
    let mut visiteds: Vec<usize> = Vec::new();
    let emitted = tsp::approx::get_approximative_path(0, &doubled, &mut visiteds);
    assert_eq!(emitted, vec![1, 0]);
    assert_eq!(visiteds, vec![0]);
}

#[test]
fn approximate_tour_visits_each_vertex_once() {
    let g = square4();
    let (path, _) = approx::solve_tsp(&g).unwrap();
    assert_eq!(path.len(), 5);
    assert_eq!(path[0], 0);
    assert_eq!(path[4], 0);
    let mut middle: Vec<usize> = path[0..4].to_vec();
    middle.sort();
    assert_eq!(middle, vec![0, 1, 2, 3]);
}

#[test]
fn metric_graph_approximation_is_within_twice_the_optimum() {
    let g = line_metric4();
    let exact_cost = exact::solve_tsp(&g).unwrap().unwrap().1;
    let approx_cost = approx::solve_tsp(&g).unwrap().1;
    assert_eq!(exact_cost, 8);
    assert!(approx_cost <= 2 * exact_cost);
}

#[test]
fn malformed_matrices_are_rejected() {
    let ragged = vec![vec![0, 1], vec![1]];
    assert_eq!(validate_graph(&ragged), Err(TspError::NotSquare));
    assert_eq!(approx::solve_tsp(&ragged), Err(TspError::NotSquare));
    assert_eq!(exact::solve_tsp(&ragged), Err(TspError::NotSquare));

    let self_loop = vec![vec![1, 2], vec![2, 0]];
    assert_eq!(validate_graph(&self_loop), Err(TspError::NonZeroDiagonal));
    assert_eq!(approx::solve_tsp(&self_loop), Err(TspError::NonZeroDiagonal));

    let lonely = vec![vec![0]];
    assert_eq!(validate_graph(&lonely), Ok(()));
    assert_eq!(approx::solve_tsp(&lonely), Err(TspError::TooFewVertices));
    assert_eq!(exact::solve_tsp(&lonely), Err(TspError::TooFewVertices));
}

#[test]
fn disconnected_graph_is_refused_by_the_tree_builder() {
    let g = vec![
        vec![0, 1, 0, 0],
        vec![1, 0, 0, 0],
        vec![0, 0, 0, 1],
        vec![0, 0, 1, 0],
    ];
    assert_eq!(approx::solve_tsp(&g), Err(TspError::Disconnected));
    assert!(matches!(prim_mst(&g), Err(TspError::Disconnected)));
    // the exact search still answers: such a graph has no Hamiltonian cycle
    assert_eq!(exact::solve_tsp(&g).unwrap(), None);
}

#[test]
fn a_parsed_text_matrix_solves_end_to_end() {
    let lines = ["0 10 15 20", "10 0 35 25", "15 35 0 30", "20 25 30 0"];
    let mut g: Vec<Vec<u64>> = Vec::new();
    for line in lines {
        g.push(tsp::loader::parse_row(line).unwrap());
    }
    assert_eq!(g, square4());
    assert_eq!(exact::solve_tsp(&g).unwrap().unwrap().1, 80);
}

#[test]
fn unpruned_search_scores_missing_edges_as_zero() {
    // the unpruned variant values every permutation, pricing an absent edge
    // at nothing, so on the star it still hands back a cheapest permutation;
    // only the pruned search can report that no Hamiltonian cycle exists
    let g = star3();
    let (_, cost) = exact::hamiltonian_cycle(&g).unwrap();
    assert_eq!(cost, 2);
    assert_eq!(exact::hamiltonian_cycle_pruned(&g), None);
}

#[test]
fn exact_search_prefers_the_cheaper_of_two_cycles() {
    // a 4-cycle with one expensive chord pair: 0-1-2-3-0 costs 4, the
    // alternative cycles drive over weight-9 chords
    let g = vec![
        vec![0, 1, 9, 1],
        vec![1, 0, 1, 9],
        vec![9, 1, 0, 1],
        vec![1, 9, 1, 0],
    ];
    let (path, cost) = exact::solve_tsp(&g).unwrap().unwrap();
    assert_eq!(cost, 4);
    assert_eq!(path[0], 0);
}
