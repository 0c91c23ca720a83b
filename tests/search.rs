use dual_tsp::construct::{build_cycle, GreedyCycle, InsertionRule, NearestNeighbor, RegretCycle, WeightedRegretCycle};
use dual_tsp::experiment::{summarize_runs, RunResult};
use dual_tsp::local_search::{
    generate_all_improving_moves, HeuristicAlgorithm, InitialSolutionType, LocalSearch,
    NeighborhoodType, SearchVariant,
};
use dual_tsp::metaheuristics::{apply_replacement, keep_better, replacement_index, Hae, Ils, Lns, Msls, PopulationMember};
use dual_tsp::moves::{
    evaluate_candidate_intra_route_edge_exchange, evaluate_inter_route_exchange,
    evaluate_intra_route_edge_exchange, evaluate_intra_route_vertex_exchange, Move,
};
use dual_tsp::perturbation::{
    apply_drawn_move, destroy_and_repair, recombine, recombine_with_marks, repair, LargePerturbation,
    SmallPerturbation,
};
use dual_tsp::parser::parse_tsplib;
use dual_tsp::tsplib::{rounded_distance, CycleId, EdgeWeightType, Solution, TsplibError, TsplibInstance};
use dual_tsp::utils::{generate_random_solution, random_permutation};
use rand::rngs::StdRng;
use rand::{Rng, SeedableRng};

fn rounded(a: (f64, f64), b: (f64, f64)) -> i32 {
    let dx = a.0 - b.0;
    let dy = a.1 - b.1;
    ((dx * dx + dy * dy).sqrt() + 0.5).floor() as i32
}

fn instance_from(points: &[(f64, f64)]) -> TsplibInstance {
    let mut m = Vec::new();
    for a in points {
        let mut row = Vec::new();
        for b in points {
            row.push(rounded(*a, *b));
        }
        m.push(row);
    }
    match TsplibInstance::from_distances("test".to_string(), EdgeWeightType::Euc2D, m) {
        Ok(inst) => inst,
        Err(_) => panic!("instance rejected"),
    }
}

fn random_instance(n: usize, seed: u64) -> TsplibInstance {
    let mut rng = StdRng::seed_from_u64(seed);
    let pts: Vec<(f64, f64)> = (0..n)
        .map(|_| (rng.gen_range(0..1000) as f64, rng.gen_range(0..1000) as f64))
        .collect();
    instance_from(&pts)
}

fn sizes_ok(sol: &Solution, n: usize) -> bool {
    sol.cycle1.len() == (n + 1) / 2 && sol.cycle2.len() == n / 2
}

fn square() -> TsplibInstance {
    instance_from(&[(0.0, 0.0), (1.0, 0.0), (1.0, 1.0), (0.0, 1.0)])
}

#[test]
fn distance_matrix_is_symmetric_with_zero_diagonal() {
    let inst = random_instance(15, 7);
    for i in 0..15 {
        assert_eq!(inst.distance(i, i), 0);
        for j in 0..15 {
            assert_eq!(inst.distance(i, j), inst.distance(j, i));
        }
    }
}

#[test]
fn rounded_euclidean_distances() {
    assert_eq!(rounded_distance(3, 4), 5);
    assert_eq!(rounded_distance(1, 1), 1);
    assert_eq!(rounded_distance(0, 0), 0);
    assert_eq!(rounded_distance(-2, 2), 3);
    let inst = TsplibInstance::from_coordinates("c".to_string(), &vec![(0, 0), (3, 4), (1, 1)]).unwrap();
    assert_eq!(inst.distance(0, 1), 5);
    assert_eq!(inst.distance(1, 0), 5);
    assert_eq!(inst.distance(0, 2), 1);
    assert_eq!(inst.distance(2, 2), 0);
    assert!(matches!(
        TsplibInstance::from_coordinates("c".to_string(), &vec![(0, 0), (400000, 0)]),
        Err(TsplibError::Format(_))
    ));
}

fn lines(text: &str) -> Vec<String> {
    text.lines().map(|l| l.to_string()).collect()
}

#[test]
fn parses_an_instance_file() {
    let text = "NAME: tiny\nCOMMENT : three points\nTYPE: TSP\nDIMENSION : 3\nEDGE_WEIGHT_TYPE: EUC_2D\nNODE_COORD_SECTION\n1 0 0\n2 3 4\n 3 1.5 1\nEOF\n";
    let data = parse_tsplib(&lines(text)).unwrap();
    assert_eq!(data.name, "tiny");
    assert_eq!(data.dimension, 3);
    assert_eq!(data.edge_weight_type, EdgeWeightType::Euc2D);
    assert_eq!(
        data.coordinates,
        vec![
            ("0".to_string(), "0".to_string()),
            ("3".to_string(), "4".to_string()),
            ("1.5".to_string(), "1".to_string())
        ]
    );
}

#[test]
fn instance_file_errors() {
    let bad_type = "NAME: a\nDIMENSION: 1\nEDGE_WEIGHT_TYPE: MAN_2D\nNODE_COORD_SECTION\n1 0 0\n";
    assert!(matches!(parse_tsplib(&lines(bad_type)), Err(TsplibError::Format(_))));
    for other in ["GEO", "ATT", "CEIL_2D", "EXPLICIT"] {
        let text = format!("NAME: a\nDIMENSION: 2\nEDGE_WEIGHT_TYPE: {}\nNODE_COORD_SECTION\n1 0 0\n2 1 1\n", other);
        assert!(matches!(parse_tsplib(&lines(&text)), Err(TsplibError::Format(_))));
    }
    let bad_dimension = "NAME: a\nDIMENSION: three\nEDGE_WEIGHT_TYPE: EUC_2D\n";
    assert!(matches!(parse_tsplib(&lines(bad_dimension)), Err(TsplibError::Parse(_))));
    let no_type = "NAME: a\nDIMENSION: 1\nNODE_COORD_SECTION\n1 0 0\n";
    assert!(matches!(parse_tsplib(&lines(no_type)), Err(TsplibError::Format(_))));
    let no_coordinates = "NAME: a\nDIMENSION: 1\nEDGE_WEIGHT_TYPE: EUC_2D\n";
    assert!(matches!(parse_tsplib(&lines(no_coordinates)), Err(TsplibError::Format(_))));
    let mismatch = "DIMENSION: 2\nEDGE_WEIGHT_TYPE: EUC_2D\nNODE_COORD_SECTION\n1 0 0\n";
    assert!(matches!(parse_tsplib(&lines(mismatch)), Err(TsplibError::Format(_))));
}

#[test]
fn matrix_errors() {
    let not_square = vec![vec![0, 1], vec![1]];
    assert!(matches!(
        TsplibInstance::from_distances("x".to_string(), EdgeWeightType::Euc2D, not_square),
        Err(TsplibError::Format(_))
    ));
    let asymmetric = vec![vec![0, 1], vec![2, 0]];
    assert!(matches!(
        TsplibInstance::from_distances("x".to_string(), EdgeWeightType::Euc2D, asymmetric),
        Err(TsplibError::Format(_))
    ));
    let negative = vec![vec![0, -1], vec![-1, 0]];
    assert!(matches!(
        TsplibInstance::from_distances("x".to_string(), EdgeWeightType::Euc2D, negative),
        Err(TsplibError::Format(_))
    ));
    let diagonal = vec![vec![3, 1], vec![1, 0]];
    assert!(matches!(
        TsplibInstance::from_distances("x".to_string(), EdgeWeightType::Euc2D, diagonal),
        Err(TsplibError::Format(_))
    ));
}

#[test]
fn two_opt_on_square_has_zero_delta() {
    let inst = square();
    let mut sol = Solution::new(vec![0, 1, 2, 3], vec![]);
    let before = sol.calculate_cost(&inst);
    let em = evaluate_intra_route_edge_exchange(&sol, &inst, CycleId::Cycle1, 0, 2).unwrap();
    assert_eq!(em.move_type, Move::IntraRouteEdgeExchange { a: 0, b: 1, c: 2, d: 3, cycle: CycleId::Cycle1 });
    assert_eq!(em.delta, 0);
    em.move_type.apply(&mut sol);
    assert_eq!(sol.cycle1, vec![0, 2, 1, 3]);
    assert_eq!(sol.calculate_cost(&inst), before);
}

#[test]
fn random_inter_exchanges_keep_invariants() {
    let inst = random_instance(20, 3);
    let mut rng = StdRng::seed_from_u64(11);
    let mut sol = generate_random_solution(&inst, &mut rng);
    for _ in 0..1000 {
        let p1 = rng.gen_range(0..sol.cycle1.len());
        let p2 = rng.gen_range(0..sol.cycle2.len());
        let before = sol.calculate_cost(&inst);
        let em = evaluate_inter_route_exchange(&sol, &inst, p1, p2).unwrap();
        em.move_type.apply(&mut sol);
        assert!(sol.is_valid(&inst));
        assert!(sizes_ok(&sol, 20));
        assert_eq!(sol.calculate_cost(&inst), before + em.delta);
    }
}

#[test]
fn every_evaluated_move_has_exact_delta() {
    let inst = random_instance(12, 5);
    let mut rng = StdRng::seed_from_u64(2);
    let sol = generate_random_solution(&inst, &mut rng);
    let base = sol.calculate_cost(&inst);
    for cycle in [CycleId::Cycle1, CycleId::Cycle2] {
        let n = sol.get_cycle(cycle).len();
        for p in 0..n {
            for q in 0..n {
                for em in [
                    evaluate_intra_route_vertex_exchange(&sol, &inst, cycle, p, q),
                    evaluate_intra_route_edge_exchange(&sol, &inst, cycle, p, q),
                    evaluate_candidate_intra_route_edge_exchange(&sol, &inst, cycle, p, q),
                ]
                .into_iter()
                .flatten()
                {
                    let mut s = sol.clone();
                    em.move_type.apply(&mut s);
                    assert!(s.is_valid(&inst));
                    assert_eq!(s.calculate_cost(&inst), base + em.delta);
                }
            }
        }
    }
}

#[test]
fn vertex_exchange_of_first_and_last_is_exact() {
    let inst = random_instance(7, 9);
    let sol = Solution::new(vec![0, 1, 2, 3, 4], vec![5, 6]);
    let base = sol.calculate_cost(&inst);
    let em = evaluate_intra_route_vertex_exchange(&sol, &inst, CycleId::Cycle1, 4, 0).unwrap();
    assert_eq!(em.move_type, Move::IntraRouteVertexExchange { v1: 0, v2: 4, cycle: CycleId::Cycle1 });
    let mut s = sol.clone();
    em.move_type.apply(&mut s);
    assert_eq!(s.cycle1, vec![4, 1, 2, 3, 0]);
    assert_eq!(s.calculate_cost(&inst), base + em.delta);
}

#[test]
fn two_opt_across_the_end_of_the_tour() {
    let inst = random_instance(8, 4);
    let sol = Solution::new(vec![0, 1, 2, 3, 4, 5], vec![6, 7]);
    let base = sol.calculate_cost(&inst);
    let em = evaluate_intra_route_edge_exchange(&sol, &inst, CycleId::Cycle1, 4, 1).unwrap();
    assert_eq!(em.move_type, Move::IntraRouteEdgeExchange { a: 4, b: 5, c: 1, d: 2, cycle: CycleId::Cycle1 });
    let mut s = sol.clone();
    em.move_type.apply(&mut s);
    assert_eq!(s.cycle1, vec![0, 5, 2, 3, 4, 1]);
    assert!(s.is_valid(&inst));
    assert_eq!(s.calculate_cost(&inst), base + em.delta);
}

#[test]
fn degenerate_sizes() {
    for n in 2..5 {
        let inst = random_instance(n, n as u64);
        let mut rng = StdRng::seed_from_u64(1);
        let sol = generate_random_solution(&inst, &mut rng);
        assert!(sol.is_valid(&inst));
        assert!(sizes_ok(&sol, n));
        let base = sol.calculate_cost(&inst);
        for p1 in 0..sol.cycle1.len() {
            for p2 in 0..sol.cycle2.len() {
                let em = evaluate_inter_route_exchange(&sol, &inst, p1, p2).unwrap();
                let mut s = sol.clone();
                em.move_type.apply(&mut s);
                assert!(s.is_valid(&inst));
                assert!(sizes_ok(&s, n));
                assert_eq!(s.calculate_cost(&inst), base + em.delta);
            }
        }
        if sol.cycle2.len() == 1 {
            assert!(evaluate_intra_route_vertex_exchange(&sol, &inst, CycleId::Cycle2, 0, 0).is_none());
            assert!(evaluate_intra_route_edge_exchange(&sol, &inst, CycleId::Cycle2, 0, 0).is_none());
        }
        let ls = LocalSearch::new(SearchVariant::Steepest, NeighborhoodType::EdgeExchange, InitialSolutionType::Random);
        let out = ls.improve(&inst, sol.clone(), &mut rng);
        assert!(out.is_valid(&inst));
        assert!(sizes_ok(&out, n));
    }
}

#[test]
fn inter_exchange_with_single_node_tour() {
    let inst = instance_from(&[(0.0, 0.0), (10.0, 0.0), (0.0, 7.0)]);
    let sol = Solution::new(vec![0, 1], vec![2]);
    let em = evaluate_inter_route_exchange(&sol, &inst, 1, 0).unwrap();
    assert_eq!(em.move_type, Move::InterRouteExchange { v1: 1, v2: 2 });
    assert_eq!(em.delta, 2 * 7 - 2 * 10);
    let mut s = sol.clone();
    em.move_type.apply(&mut s);
    assert_eq!(s.cycle1, vec![0, 2]);
    assert_eq!(s.cycle2, vec![1]);
    assert_eq!(s.calculate_cost(&inst), sol.calculate_cost(&inst) + em.delta);
}

#[test]
fn steepest_edge_exchange_ends_in_local_optimum() {
    let inst = random_instance(30, 21);
    let mut rng = StdRng::seed_from_u64(5);
    let ls = LocalSearch::new(SearchVariant::Steepest, NeighborhoodType::EdgeExchange, InitialSolutionType::Random);
    let sol = ls.solve(&inst, &mut rng);
    assert!(sol.is_valid(&inst));
    assert!(generate_all_improving_moves(NeighborhoodType::EdgeExchange, &inst, &sol).is_empty());
    for p1 in 0..sol.cycle1.len() {
        for p2 in 0..sol.cycle2.len() {
            assert!(evaluate_inter_route_exchange(&sol, &inst, p1, p2).unwrap().delta >= 0);
        }
    }
    for cycle in [CycleId::Cycle1, CycleId::Cycle2] {
        let n = sol.get_cycle(cycle).len();
        for p in 0..n {
            for q in 0..n {
                if let Some(em) = evaluate_intra_route_edge_exchange(&sol, &inst, cycle, p, q) {
                    assert!(em.delta >= 0);
                }
            }
        }
    }
}

#[test]
fn every_variant_improves_and_keeps_validity() {
    let mut inst = random_instance(24, 8);
    inst.precompute_nearest_neighbors(10);
    assert_eq!(inst.get_nearest_neighbors(0).len(), 10);
    for variant in [
        SearchVariant::Steepest,
        SearchVariant::Greedy,
        SearchVariant::CandidateSteepest(10),
        SearchVariant::MoveListSteepest,
    ] {
        for nb in [NeighborhoodType::VertexExchange, NeighborhoodType::EdgeExchange] {
            let mut rng = StdRng::seed_from_u64(17);
            let start = generate_random_solution(&inst, &mut rng);
            let start_cost = start.calculate_cost(&inst);
            let ls = LocalSearch::new(variant, nb, InitialSolutionType::Random);
            let out = ls.improve(&inst, start, &mut rng);
            assert!(out.is_valid(&inst));
            assert!(sizes_ok(&out, 24));
            assert!(out.calculate_cost(&inst) <= start_cost);
            if variant != SearchVariant::CandidateSteepest(10) {
                assert!(generate_all_improving_moves(nb, &inst, &out).is_empty());
            } else {
                assert!(ls.generate_candidate_moves(&inst, &out, 10).is_empty());
            }
        }
    }
}

#[test]
fn move_list_and_steepest_both_reach_local_optima() {
    let inst = random_instance(40, 31);
    let mut rng = StdRng::seed_from_u64(6);
    let start = generate_random_solution(&inst, &mut rng);
    let steepest = LocalSearch::new(SearchVariant::Steepest, NeighborhoodType::EdgeExchange, InitialSolutionType::Random);
    let listed = LocalSearch::new(SearchVariant::MoveListSteepest, NeighborhoodType::EdgeExchange, InitialSolutionType::Random);
    let a = steepest.improve(&inst, start.clone(), &mut rng);
    let b = listed.improve(&inst, start.clone(), &mut rng);
    assert!(generate_all_improving_moves(NeighborhoodType::EdgeExchange, &inst, &a).is_empty());
    assert!(generate_all_improving_moves(NeighborhoodType::EdgeExchange, &inst, &b).is_empty());
    assert!(a.calculate_cost(&inst) < start.calculate_cost(&inst));
    assert!(b.calculate_cost(&inst) < start.calculate_cost(&inst));
}

#[test]
fn neighbor_lists_are_sorted_by_distance() {
    let mut inst = random_instance(25, 13);
    inst.precompute_nearest_neighbors(5);
    for i in 0..25 {
        let row = inst.get_nearest_neighbors(i);
        assert_eq!(row.len(), 5);
        for w in row.windows(2) {
            assert!(inst.distance(i, w[0]) <= inst.distance(i, w[1]));
        }
        let farthest = inst.distance(i, row[4]);
        for j in 0..25 {
            if j != i && !row.contains(&j) {
                assert!(inst.distance(i, j) >= farthest);
            }
        }
    }
}

#[test]
fn constructions_are_valid() {
    for n in 1..12 {
        let inst = random_instance(n, 40 + n as u64);
        for sol in [
            NearestNeighbor.solve(&inst),
            GreedyCycle.solve(&inst),
            RegretCycle::new().solve(&inst),
            WeightedRegretCycle::default().solve(&inst),
        ] {
            assert!(sol.is_valid(&inst));
            assert!(sizes_ok(&sol, n));
        }
    }
}

#[test]
fn heuristic_start_is_valid() {
    let inst = random_instance(21, 2);
    let mut rng = StdRng::seed_from_u64(3);
    let ls = LocalSearch::new(
        SearchVariant::Steepest,
        NeighborhoodType::VertexExchange,
        InitialSolutionType::Heuristic(HeuristicAlgorithm::WeightedRegret),
    );
    let start = ls.generate_initial_solution(&inst, &mut rng);
    assert!(start.is_valid(&inst));
    let out = ls.solve(&inst, &mut rng);
    assert!(out.is_valid(&inst));
    assert!(out.calculate_cost(&inst) <= start.calculate_cost(&inst));
}

#[test]
fn repair_with_nothing_removed_changes_nothing() {
    let inst = random_instance(10, 1);
    let mut rng = StdRng::seed_from_u64(4);
    let sol = generate_random_solution(&inst, &mut rng);
    let mut again = sol.clone();
    repair(&mut again, &inst, Vec::new());
    assert_eq!(again.cycle1, sol.cycle1);
    assert_eq!(again.cycle2, sol.cycle2);
}

#[test]
fn repair_reinserts_removed_nodes() {
    let inst = random_instance(10, 1);
    let mut sol = Solution::new(vec![0, 1, 2], vec![5, 6, 7]);
    repair(&mut sol, &inst, vec![3, 4, 8, 9]);
    assert!(sol.is_valid(&inst));
    assert!(sizes_ok(&sol, 10));
}

#[test]
fn perturbations_keep_validity() {
    let inst = random_instance(30, 12);
    let mut rng = StdRng::seed_from_u64(8);
    let mut sol = generate_random_solution(&inst, &mut rng);
    SmallPerturbation::new(10).perturb(&mut sol, &inst, NeighborhoodType::EdgeExchange, &mut rng);
    assert!(sol.is_valid(&inst) && sizes_ok(&sol, 30));
    let large = LargePerturbation::new(20);
    assert_eq!(large.destroy_count(30), 6);
    large.perturb(&mut sol, &inst, &mut rng);
    assert!(sol.is_valid(&inst) && sizes_ok(&sol, 30));
}

#[test]
fn msls_returns_its_best_run() {
    let inst = random_instance(20, 14);
    let mut rng = StdRng::seed_from_u64(9);
    let base = LocalSearch::new(SearchVariant::Steepest, NeighborhoodType::EdgeExchange, InitialSolutionType::Random);
    let msls = Msls::new(base, 5);
    assert!(msls.name().contains("MSLS"));
    let (best, costs) = msls.run(&inst, &mut rng);
    assert_eq!(costs.len(), 5);
    let c = best.calculate_cost(&inst);
    assert!(costs.iter().all(|&k| c <= k));
    assert!(costs.contains(&c));
}

#[test]
fn diversity_gate_of_replacement() {
    let costs = vec![100, 105, 110];
    assert_eq!(replacement_index(&costs, 102, 100, 10), None);
    assert_eq!(replacement_index(&costs, 95, 100, 10), Some(2));
    assert_eq!(replacement_index(&costs, 108, 100, 1), Some(2));
    assert_eq!(replacement_index(&costs, 108, 100, 10), None);
}

#[test]
fn timed_drivers_never_lose_their_best() {
    let inst = random_instance(20, 15);
    let mut rng = StdRng::seed_from_u64(10);
    let base = || LocalSearch::new(SearchVariant::Steepest, NeighborhoodType::EdgeExchange, InitialSolutionType::Random);
    let ils = Ils::new(base(), SmallPerturbation::new(5));
    let (mut best, mut cost) = ils.start(&inst, &mut rng);
    for _ in 0..3 {
        let before = cost;
        ils.step(&inst, &mut best, &mut cost, &mut rng);
        assert!(cost <= before);
        assert_eq!(best.calculate_cost(&inst), cost);
    }
    let lns = Lns::new(base(), LargePerturbation::new(20), true, true);
    let (mut best, mut cost) = lns.start(&inst, &mut rng);
    for _ in 0..3 {
        let before = cost;
        lns.step(&inst, &mut best, &mut cost, &mut rng);
        assert!(cost <= before && best.is_valid(&inst));
    }
    let hae = Hae::new(base(), 4, 40, true);
    assert!(hae.name().starts_with("HAE+LS"));
    let (mut pop, b) = hae.init_population(&inst, &mut rng);
    let mut best = pop[b].solution.clone();
    let mut cost = pop[b].cost;
    for _ in 0..3 {
        let before = cost;
        hae.step(&inst, &mut pop, &mut best, &mut cost, &mut rng);
        assert!(cost <= before && best.is_valid(&inst));
        assert!(pop.iter().all(|m| m.solution.calculate_cost(&inst) == m.cost));
    }
}

#[test]
fn random_permutation_is_shuffled() {
    let mut rng = StdRng::seed_from_u64(42);
    let p = random_permutation(20, &mut rng);
    let mut sorted = p.clone();
    sorted.sort();
    assert_eq!(sorted, (0..20).collect::<Vec<usize>>());
    assert_ne!(p, sorted);
}

#[test]
fn local_search_name_describes_configuration() {
    let ls = LocalSearch::new(SearchVariant::CandidateSteepest(10), NeighborhoodType::EdgeExchange, InitialSolutionType::Random);
    assert_eq!(ls.name(), "Local Search (Candidate k=10, EdgeExchange, Init: Random)");
    let hae = Hae::new(
        LocalSearch::new(SearchVariant::Steepest, NeighborhoodType::EdgeExchange, InitialSolutionType::Random),
        20,
        40,
        false,
    );
    assert_eq!(hae.name(), "HAE (Base: Local Search (Steepest, EdgeExchange, Init: Random), pop=20, min_diff=40)");
    let msls = Msls::new(
        LocalSearch::new(SearchVariant::Greedy, NeighborhoodType::VertexExchange, InitialSolutionType::Random),
        200,
    );
    assert_eq!(msls.name(), "MSLS (Base: Local Search (Greedy, VertexExchange, Init: Random), Iterations: 200)");
    let listed = LocalSearch::new(
        SearchVariant::MoveListSteepest,
        NeighborhoodType::VertexExchange,
        InitialSolutionType::Heuristic(HeuristicAlgorithm::WeightedRegret),
    );
    assert_eq!(listed.name(), "Local Search (MoveListSteepest, VertexExchange, Init: Heuristic(WeightedRegret))");
}

#[test]
fn edges_and_positions() {
    let sol = Solution::new(vec![0, 1, 2], vec![3, 4]);
    assert_eq!(sol.find_node(4), Some((CycleId::Cycle2, 1)));
    assert_eq!(sol.find_node(9), None);
    assert_eq!(sol.has_edge(2, 0), Some(CycleId::Cycle1));
    assert_eq!(sol.has_edge(4, 3), Some(CycleId::Cycle2));
    assert_eq!(sol.has_edge(0, 3), None);
    assert!(sol.check_edge_in_cycle(CycleId::Cycle1, 2, 0));
    assert!(!sol.check_edge_in_cycle(CycleId::Cycle1, 0, 2));
}

#[test]
fn run_statistics() {
    let s = |c| Solution::new(vec![c], vec![]);
    let runs = vec![
        RunResult { cost: 30, solution: s(0), time_ms: 5 },
        RunResult { cost: 10, solution: s(1), time_ms: 7 },
        RunResult { cost: 10, solution: s(2), time_ms: 1 },
        RunResult { cost: 50, solution: s(3), time_ms: 2 },
    ];
    let sum = summarize_runs(&runs).unwrap();
    assert_eq!(sum.min_cost, 10);
    assert_eq!(sum.max_cost, 50);
    assert_eq!(sum.sum_cost, 100);
    assert_eq!(sum.sum_time_ms, 15);
    assert_eq!(sum.best_index, 1);
    assert!(summarize_runs(&Vec::new()).is_none());
}

#[test]
fn candidate_search_on_two_hundred_nodes() {
    let mut inst = random_instance(200, 77);
    inst.precompute_nearest_neighbors(10);
    let mut rng = StdRng::seed_from_u64(3);
    let ls = LocalSearch::new(SearchVariant::CandidateSteepest(10), NeighborhoodType::EdgeExchange, InitialSolutionType::Random);
    let start = generate_random_solution(&inst, &mut rng);
    let start_cost = start.calculate_cost(&inst);
    let out = ls.improve(&inst, start, &mut rng);
    assert!(out.is_valid(&inst));
    assert!(sizes_ok(&out, 200));
    assert!(out.calculate_cost(&inst) < start_cost / 2);
}

#[test]
fn drawn_moves_are_applied_exactly() {
    let inst = random_instance(8, 19);
    let sol = Solution::new(vec![0, 1, 2, 3], vec![4, 5, 6, 7]);
    let mut a = sol.clone();
    apply_drawn_move(&mut a, &inst, NeighborhoodType::EdgeExchange, true, CycleId::Cycle1, 1, 2);
    assert_eq!(a.cycle1, vec![0, 6, 2, 3]);
    assert_eq!(a.cycle2, vec![4, 5, 1, 7]);
    let mut b = sol.clone();
    apply_drawn_move(&mut b, &inst, NeighborhoodType::VertexExchange, false, CycleId::Cycle2, 3, 0);
    assert_eq!(b.cycle2, vec![7, 5, 6, 4]);
    let mut c = sol.clone();
    apply_drawn_move(&mut c, &inst, NeighborhoodType::EdgeExchange, false, CycleId::Cycle1, 0, 1);
    assert_eq!(c.cycle1, sol.cycle1);
    assert_eq!(c.cycle2, sol.cycle2);
}

#[test]
fn acceptance_keeps_the_shorter() {
    let mut best = Solution::new(vec![0], vec![1]);
    let mut cost = 10;
    keep_better(&mut best, &mut cost, Solution::new(vec![1], vec![0]), 10);
    assert_eq!((best.cycle1.clone(), cost), (vec![0], 10));
    keep_better(&mut best, &mut cost, Solution::new(vec![1], vec![0]), 9);
    assert_eq!((best.cycle1.clone(), cost), (vec![1], 9));
}

#[test]
fn recombination_of_equal_parents_keeps_the_parent() {
    let inst = random_instance(12, 23);
    let mut rng = StdRng::seed_from_u64(12);
    let p = generate_random_solution(&inst, &mut rng);
    let child = recombine_with_marks(&p, &p, &inst, &vec![false; 12]);
    assert_eq!(child.cycle1, p.cycle1);
    assert_eq!(child.cycle2, p.cycle2);
    let other = generate_random_solution(&inst, &mut rng);
    let child = recombine(&p, &other, &inst, &mut rng);
    assert!(child.is_valid(&inst) && sizes_ok(&child, 12));
}

#[test]
fn destroy_and_repair_of_marked_nodes() {
    let inst = random_instance(10, 29);
    let mut rng = StdRng::seed_from_u64(13);
    let mut sol = generate_random_solution(&inst, &mut rng);
    let before = sol.clone();
    destroy_and_repair(&mut sol, &inst, &vec![false; 10]);
    assert_eq!(sol.cycle1, before.cycle1);
    assert_eq!(sol.cycle2, before.cycle2);
    destroy_and_repair(&mut sol, &inst, &vec![true; 10]);
    assert!(sol.is_valid(&inst) && sizes_ok(&sol, 10));
}

#[test]
fn accepted_child_replaces_the_worst_and_becomes_best() {
    let member = |c: usize, cost: i32| PopulationMember { solution: Solution::new(vec![c], vec![]), cost };
    let mut pop = vec![member(0, 100), member(1, 105), member(2, 110)];
    let mut best = Solution::new(vec![0], vec![]);
    let mut best_cost = 100;
    apply_replacement(&mut pop, &mut best, &mut best_cost, Solution::new(vec![9], vec![]), 102, 10);
    assert_eq!(pop.iter().map(|m| m.cost).collect::<Vec<i32>>(), vec![100, 105, 110]);
    assert_eq!(best_cost, 100);
    apply_replacement(&mut pop, &mut best, &mut best_cost, Solution::new(vec![9], vec![]), 95, 10);
    assert_eq!(pop.iter().map(|m| m.cost).collect::<Vec<i32>>(), vec![100, 105, 95]);
    assert_eq!(pop[2].solution.cycle1, vec![9]);
    assert_eq!(best_cost, 95);
    assert_eq!(best.cycle1, vec![9]);
}

#[test]
fn build_cycle_respects_small_targets() {
    let inst = random_instance(6, 3);
    assert_eq!(build_cycle(0, vec![1, 2, 3], 1, InsertionRule::Cheapest, &inst), vec![0]);
    let c = build_cycle(0, vec![1, 2, 3], 3, InsertionRule::Regret, &inst);
    assert_eq!(c.len(), 3);
    assert!(c.contains(&0));
    let c = build_cycle(0, vec![1, 2, 3], 9, InsertionRule::Nearest, &inst);
    assert_eq!(c.len(), 4);
}

#[test]
fn moves_around_nodes_are_complete() {
    let inst = random_instance(16, 37);
    let mut rng = StdRng::seed_from_u64(14);
    let sol = generate_random_solution(&inst, &mut rng);
    for nb in [NeighborhoodType::VertexExchange, NeighborhoodType::EdgeExchange] {
        let ls = LocalSearch::new(SearchVariant::MoveListSteepest, nb, InitialSolutionType::Random);
        assert!(ls.generate_moves_around_nodes(&inst, &sol, &Vec::new()).is_empty());
        let a = sol.cycle1[1];
        let around = ls.generate_moves_around_nodes(&inst, &sol, &vec![a]);
        let all = generate_all_improving_moves(nb, &inst, &sol);
        for em in &all {
            let ends: Vec<usize> = match em.move_type {
                Move::InterRouteExchange { v1, v2 } => vec![v1, v2],
                Move::IntraRouteVertexExchange { v1, v2, .. } => vec![v1, v2],
                Move::IntraRouteEdgeExchange { a, b, c, d, .. } => vec![a, b, c, d],
            };
            if ends.contains(&a) {
                assert!(around.iter().any(|m| m.move_type == em.move_type));
            }
        }
        for em in &around {
            assert!(em.delta < 0);
        }
    }
}

#[test]
fn enumeration_lists_each_move_once() {
    let inst = random_instance(14, 41);
    let mut rng = StdRng::seed_from_u64(15);
    let sol = generate_random_solution(&inst, &mut rng);
    for nb in [NeighborhoodType::VertexExchange, NeighborhoodType::EdgeExchange] {
        let all = generate_all_improving_moves(nb, &inst, &sol);
        for i in 0..all.len() {
            for j in i + 1..all.len() {
                assert_ne!(all[i].move_type, all[j].move_type);
            }
        }
    }
}

#[test]
fn recombining_equal_parents_without_marks_keeps_them() {
    let inst = random_instance(11, 43);
    let mut rng = StdRng::seed_from_u64(16);
    let p = generate_random_solution(&inst, &mut rng);
    let child = recombine_with_marks(&p, &p, &inst, &Vec::new());
    assert_eq!(child.cycle1, p.cycle1);
    assert_eq!(child.cycle2, p.cycle2);
}
