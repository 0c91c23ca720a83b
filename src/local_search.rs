//! Local search over the two-tour neighbourhood: greedy, steepest,
//! candidate-list steepest, and steepest over a cached list of moves.

use vstd::prelude::*;
use rand::rngs::StdRng;
use crate::cost::{next_index, nodes_below};
use crate::moves::evaluate_candidate_intra_route_edge_exchange;
use crate::random::random_below;
use crate::moves::{
    apply_spec, delta_is_exact, evaluate_intra_route_edge_exchange,
    evaluate_intra_route_vertex_exchange, evaluate_inter_route_exchange, pair_cost, pick,
    EvaluatedMove, Move,
};
use crate::tsplib::{CycleId, Solution, TsplibInstance};

verus! {

#[derive(Debug, Clone, Copy, PartialEq, Eq, Structural)]
pub enum SearchVariant {
    Steepest,
    Greedy,
    CandidateSteepest(usize),
    MoveListSteepest,
}

/// The moves tried inside one tour; exchanges between the tours are always
/// tried.
#[derive(Debug, Clone, Copy, PartialEq, Eq, Structural)]
pub enum NeighborhoodType {
    VertexExchange,
    EdgeExchange,
}

#[derive(Debug, Clone, Copy, PartialEq, Eq, Structural)]
pub enum HeuristicAlgorithm {
    WeightedRegret,
}

#[derive(Debug, Clone, Copy, PartialEq, Eq, Structural)]
pub enum InitialSolutionType {
    Random,
    Heuristic(HeuristicAlgorithm),
}

/// Change of total length that applying `mv` to `sol` causes.
pub open spec fn move_gain(m: Seq<Seq<i32>>, sol: Solution, mv: Move) -> int {
    pair_cost(m, apply_spec(sol.cycle1@, sol.cycle2@, mv)) - sol.total_cost(m)
}

pub open spec fn inter_move_at(sol: Solution, p1: int, p2: int) -> Move {
    Move::InterRouteExchange { v1: sol.cycle1@[p1], v2: sol.cycle2@[p2] }
}

pub open spec fn vertex_move_at(sol: Solution, cycle: CycleId, p: int, q: int) -> Move {
    Move::IntraRouteVertexExchange { v1: sol.cycle_of(cycle)[p], v2: sol.cycle_of(cycle)[q], cycle }
}

pub open spec fn edge_move_at(sol: Solution, cycle: CycleId, p: int, q: int) -> Move {
    let c = sol.cycle_of(cycle);
    Move::IntraRouteEdgeExchange {
        a: c[p],
        b: c[next_index(p, c.len() as int)],
        c: c[q],
        d: c[next_index(q, c.len() as int)],
        cycle,
    }
}

/// The edges that start at positions `p < q` of a tour of length `n` can be
/// exchanged: they are neither equal nor adjacent.
pub open spec fn edge_pair_ok(n: int, p: int, q: int) -> bool {
    &&& n >= 3
    &&& 0 <= p < q < n
    &&& q != p + 1
    &&& !(p == 0 && q == n - 1)
}

/// No move of the neighbourhood shortens `sol`.
pub open spec fn is_local_optimum(m: Seq<Seq<i32>>, sol: Solution, nb: NeighborhoodType) -> bool {
    &&& forall|p1: int, p2: int|
        0 <= p1 < sol.cycle1@.len() && 0 <= p2 < sol.cycle2@.len() ==> move_gain(
            m,
            sol,
            #[trigger] inter_move_at(sol, p1, p2),
        ) >= 0
    &&& forall|cycle: CycleId| #[trigger] intra_optimal(m, sol, nb, cycle)
}

/// No move of the neighbourhood inside the tour `cycle` shortens `sol`.
pub open spec fn intra_optimal(m: Seq<Seq<i32>>, sol: Solution, nb: NeighborhoodType, cycle: CycleId) -> bool {
    let n = sol.cycle_of(cycle).len() as int;
    match nb {
        NeighborhoodType::VertexExchange => forall|p: int, q: int|
            0 <= p < q < n ==> move_gain(m, sol, #[trigger] vertex_move_at(sol, cycle, p, q)) >= 0,
        NeighborhoodType::EdgeExchange => forall|p: int, q: int|
            edge_pair_ok(n, p, q) ==> move_gain(m, sol, #[trigger] edge_move_at(sol, cycle, p, q)) >= 0,
    }
}

/// Every improving move of `nb` inside the tour `cycle` is listed in `r`.
pub open spec fn intra_listed(m: Seq<Seq<i32>>, sol: Solution, nb: NeighborhoodType, cycle: CycleId, r: Seq<EvaluatedMove>) -> bool {
    let n = sol.cycle_of(cycle).len() as int;
    match nb {
        NeighborhoodType::VertexExchange => forall|p: int, q: int|
            0 <= p < q < n && move_gain(m, sol, #[trigger] vertex_move_at(sol, cycle, p, q)) < 0 ==> lists_move(
                r,
                vertex_move_at(sol, cycle, p, q),
            ),
        NeighborhoodType::EdgeExchange => forall|p: int, q: int|
            edge_pair_ok(n, p, q) && move_gain(m, sol, #[trigger] edge_move_at(sol, cycle, p, q)) < 0 ==> lists_move(
                r,
                edge_move_at(sol, cycle, p, q),
            ),
    }
}

/// Every move of the list shortens `sol` by exactly its delta.
pub open spec fn all_improving(moves: Seq<EvaluatedMove>, m: Seq<Seq<i32>>, sol: Solution) -> bool {
    forall|k: int| 0 <= k < moves.len() ==> (#[trigger] moves[k]).delta < 0 && delta_is_exact(moves[k], m, sol)
}

/// The tour a move works inside, `None` for an exchange between the tours.
pub open spec fn move_cycle(mv: Move) -> Option<CycleId> {
    match mv {
        Move::InterRouteExchange { .. } => None,
        Move::IntraRouteVertexExchange { cycle, .. } => Some(cycle),
        Move::IntraRouteEdgeExchange { cycle, .. } => Some(cycle),
    }
}

/// The move of `nb` between positions `p` and `q` of the tour `cycle`.
pub open spec fn intra_move_at(sol: Solution, nb: NeighborhoodType, cycle: CycleId, p: int, q: int) -> Move {
    match nb {
        NeighborhoodType::VertexExchange => vertex_move_at(sol, cycle, p, q),
        NeighborhoodType::EdgeExchange => edge_move_at(sol, cycle, p, q),
    }
}

/// No move is listed twice from position `start` on.
pub open spec fn unique_from(l: Seq<EvaluatedMove>, start: int) -> bool {
    forall|a: int, b: int|
        start <= a < l.len() && start <= b < l.len() && a != b ==> (#[trigger] l[a]).move_type != (#[trigger] l[b]).move_type
}

pub open spec fn lex_lt(x: (int, int), y: (int, int)) -> bool {
    x.0 < y.0 || (x.0 == y.0 && x.1 < y.1)
}

/// The moves after the prefix `s0` are `at` of the positions `ps`, which
/// increase and come before `(i, j)`.
pub open spec fn tagged(
    moves: Seq<EvaluatedMove>,
    s0: Seq<EvaluatedMove>,
    ps: Seq<(int, int)>,
    at: spec_fn((int, int)) -> Move,
    i: int,
    j: int,
) -> bool {
    &&& moves.len() == s0.len() + ps.len()
    &&& forall|k: int| 0 <= k < s0.len() ==> #[trigger] moves[k] == s0[k]
    &&& forall|k: int|
        0 <= k < ps.len() ==> moves[s0.len() + k].move_type == at(#[trigger] ps[k]) && lex_lt(ps[k], (i, j))
    &&& forall|k1: int, k2: int| 0 <= k1 < k2 < ps.len() ==> lex_lt(#[trigger] ps[k1], #[trigger] ps[k2])
}

pub proof fn lemma_tagged_push(
    moves: Seq<EvaluatedMove>,
    s0: Seq<EvaluatedMove>,
    ps: Seq<(int, int)>,
    at: spec_fn((int, int)) -> Move,
    i: int,
    j: int,
    em: EvaluatedMove,
)
    requires
        tagged(moves, s0, ps, at, i, j),
        em.move_type == at((i, j)),
    ensures
        tagged(moves.push(em), s0, ps.push((i, j)), at, i, j + 1),
{
    let m2 = moves.push(em);
    let p2 = ps.push((i, j));
    assert forall|k: int| 0 <= k < p2.len() implies m2[s0.len() + k].move_type == at(#[trigger] p2[k]) && lex_lt(p2[k], (i, j + 1)) by {
        if k < ps.len() {
            assert(p2[k] == ps[k]);
        }
    }
    assert forall|k1: int, k2: int| 0 <= k1 < k2 < p2.len() implies lex_lt(#[trigger] p2[k1], #[trigger] p2[k2]) by {
        if k2 < ps.len() {
            assert(p2[k1] == ps[k1] && p2[k2] == ps[k2]);
        } else {
            assert(p2[k1] == ps[k1]);
        }
    }
}

pub proof fn lemma_tagged_next_row(
    moves: Seq<EvaluatedMove>,
    s0: Seq<EvaluatedMove>,
    ps: Seq<(int, int)>,
    at: spec_fn((int, int)) -> Move,
    i: int,
    j: int,
)
    requires
        tagged(moves, s0, ps, at, i, j),
    ensures
        tagged(moves, s0, ps, at, i + 1, 0),
{
}

pub proof fn lemma_tagged_unique(
    moves: Seq<EvaluatedMove>,
    s0: Seq<EvaluatedMove>,
    ps: Seq<(int, int)>,
    at: spec_fn((int, int)) -> Move,
    i: int,
    j: int,
    n1: int,
    n2: int,
)
    requires
        tagged(moves, s0, ps, at, i, j),
        forall|k: int| 0 <= k < ps.len() ==> 0 <= (#[trigger] ps[k]).0 < n1 && 0 <= ps[k].1 < n2,
        forall|x: (int, int), y: (int, int)|
            0 <= x.0 < n1 && 0 <= x.1 < n2 && 0 <= y.0 < n1 && 0 <= y.1 < n2 && x != y ==> #[trigger] at(x) != #[trigger] at(y),
    ensures
        unique_from(moves, s0.len() as int),
{
    assert forall|a: int, b: int|
        s0.len() <= a < moves.len() && s0.len() <= b < moves.len() && a != b implies (#[trigger] moves[a]).move_type != (
        #[trigger] moves[b]).move_type by {
        let k1 = a - s0.len();
        let k2 = b - s0.len();
        assert(moves[s0.len() + k1].move_type == at(ps[k1]));
        assert(moves[s0.len() + k2].move_type == at(ps[k2]));
        if k1 < k2 {
            assert(lex_lt(ps[k1], ps[k2]));
        } else {
            assert(lex_lt(ps[k2], ps[k1]));
        }
    }
}

pub proof fn lemma_tagged_unique_ordered(
    moves: Seq<EvaluatedMove>,
    s0: Seq<EvaluatedMove>,
    ps: Seq<(int, int)>,
    at: spec_fn((int, int)) -> Move,
    i: int,
    j: int,
    n: int,
)
    requires
        tagged(moves, s0, ps, at, i, j),
        forall|k: int| 0 <= k < ps.len() ==> 0 <= (#[trigger] ps[k]).0 < ps[k].1 < n,
        forall|x: (int, int), y: (int, int)|
            0 <= x.0 < x.1 < n && 0 <= y.0 < y.1 < n && x != y ==> #[trigger] at(x) != #[trigger] at(y),
    ensures
        unique_from(moves, s0.len() as int),
{
    assert forall|a: int, b: int|
        s0.len() <= a < moves.len() && s0.len() <= b < moves.len() && a != b implies (#[trigger] moves[a]).move_type != (
        #[trigger] moves[b]).move_type by {
        let k1 = a - s0.len();
        let k2 = b - s0.len();
        assert(moves[s0.len() + k1].move_type == at(ps[k1]));
        assert(moves[s0.len() + k2].move_type == at(ps[k2]));
        if k1 < k2 {
            assert(lex_lt(ps[k1], ps[k2]));
        } else {
            assert(lex_lt(ps[k2], ps[k1]));
        }
    }
}

/// Appends every improving exchange between the two tours.
fn push_improving_inter(solution: &Solution, instance: &TsplibInstance, moves: &mut Vec<EvaluatedMove>)
    requires
        instance.wf(),
        solution.well_formed(instance.dimension as int),
        all_improving(old(moves)@, instance.matrix(), *solution),
    ensures
        all_improving(final(moves)@, instance.matrix(), *solution),
        final(moves)@.len() >= old(moves)@.len(),
        forall|j: int| 0 <= j < old(moves)@.len() ==> #[trigger] final(moves)@[j] == old(moves)@[j],
        forall|j: int| old(moves)@.len() <= j < final(moves)@.len() ==> move_cycle((#[trigger] final(moves)@[j]).move_type) is None,
        unique_from(final(moves)@, old(moves)@.len() as int),
        forall|mv: Move| lists_move(old(moves)@, mv) ==> #[trigger] lists_move(final(moves)@, mv),
        forall|p1: int, p2: int|
            0 <= p1 < solution.cycle1@.len() && 0 <= p2 < solution.cycle2@.len() && move_gain(
                instance.matrix(),
                *solution,
                #[trigger] inter_move_at(*solution, p1, p2),
            ) < 0 ==> lists_move(final(moves)@, inter_move_at(*solution, p1, p2)),
        final(moves)@.len() == old(moves)@.len() ==> forall|p1: int, p2: int|
            0 <= p1 < solution.cycle1@.len() && 0 <= p2 < solution.cycle2@.len() ==> move_gain(
                instance.matrix(),
                *solution,
                #[trigger] inter_move_at(*solution, p1, p2),
            ) >= 0,
{
    let ghost m = instance.matrix();
    let ghost start = moves@.len();
    let ghost s0 = moves@;
    let ghost mut ps: Seq<(int, int)> = Seq::empty();
    let n1 = solution.cycle1.len();
    let n2 = solution.cycle2.len();
    let mut i: usize = 0;
    while i < n1
        invariant
            tagged(moves@, s0, ps, |p: (int, int)| inter_move_at(*solution, p.0, p.1), i as int, 0),
            forall|k: int| 0 <= k < ps.len() ==> 0 <= (#[trigger] ps[k]).0 < n1 && 0 <= ps[k].1 < n2,
            instance.wf(),
            m == instance.matrix(),
            solution.well_formed(instance.dimension as int),
            n1 == solution.cycle1@.len(),
            n2 == solution.cycle2@.len(),
            0 <= i <= n1,
            all_improving(moves@, m, *solution),
            moves@.len() >= start,
            forall|mv: Move| lists_move(s0, mv) ==> #[trigger] lists_move(moves@, mv),
            forall|p1: int, p2: int|
                0 <= p1 < i && 0 <= p2 < n2 && move_gain(m, *solution, #[trigger] inter_move_at(*solution, p1, p2)) < 0
                    ==> lists_move(moves@, inter_move_at(*solution, p1, p2)),
            moves@.len() == start ==> forall|p1: int, p2: int|
                0 <= p1 < i && 0 <= p2 < n2 ==> move_gain(m, *solution, #[trigger] inter_move_at(*solution, p1, p2)) >= 0,
        decreases n1 - i,
    {
        let mut j: usize = 0;
        while j < n2
            invariant
                tagged(moves@, s0, ps, |p: (int, int)| inter_move_at(*solution, p.0, p.1), i as int, j as int),
                forall|k: int| 0 <= k < ps.len() ==> 0 <= (#[trigger] ps[k]).0 < n1 && 0 <= ps[k].1 < n2,
                instance.wf(),
                m == instance.matrix(),
                solution.well_formed(instance.dimension as int),
                n1 == solution.cycle1@.len(),
                n2 == solution.cycle2@.len(),
                0 <= i < n1,
                0 <= j <= n2,
                all_improving(moves@, m, *solution),
                moves@.len() >= start,
                forall|mv: Move| lists_move(s0, mv) ==> #[trigger] lists_move(moves@, mv),
                forall|p1: int, p2: int|
                    ((0 <= p1 < i && 0 <= p2 < n2) || (p1 == i && 0 <= p2 < j)) && move_gain(
                        m,
                        *solution,
                        #[trigger] inter_move_at(*solution, p1, p2),
                    ) < 0 ==> lists_move(moves@, inter_move_at(*solution, p1, p2)),
                moves@.len() == start ==> forall|p1: int, p2: int|
                    (0 <= p1 < i && 0 <= p2 < n2) || (p1 == i && 0 <= p2 < j) ==> move_gain(
                        m,
                        *solution,
                        #[trigger] inter_move_at(*solution, p1, p2),
                    ) >= 0,
            decreases n2 - j,
        {
            if let Some(em) = evaluate_inter_route_exchange(solution, instance, i, j) {
                if em.delta < 0 {
                    proof {
                        lemma_lists_push(moves@, em);
                        lemma_tagged_push(moves@, s0, ps, |p: (int, int)| inter_move_at(*solution, p.0, p.1), i as int, j as int, em);
                        ps = ps.push((i as int, j as int));
                    }
                    moves.push(em);
                }
            }
            j += 1;
        }
        proof {
            lemma_tagged_next_row(moves@, s0, ps, |p: (int, int)| inter_move_at(*solution, p.0, p.1), i as int, j as int);
        }
        i += 1;
    }
    proof {
        crate::moves::lemma_split_distinct(solution.cycle1@, solution.cycle2@);
        assert forall|x: (int, int), y: (int, int)|
            0 <= x.0 < n1 && 0 <= x.1 < n2 && 0 <= y.0 < n1 && 0 <= y.1 < n2 && x != y implies inter_move_at(*solution, x.0, x.1)
            != inter_move_at(*solution, y.0, y.1) by {
            if x.0 != y.0 {
                assert(solution.cycle1@[x.0] != solution.cycle1@[y.0]);
            } else {
                assert(solution.cycle2@[x.1] != solution.cycle2@[y.1]);
            }
        }
        lemma_tagged_unique(moves@, s0, ps, |p: (int, int)| inter_move_at(*solution, p.0, p.1), i as int, 0, n1 as int, n2 as int);
        assert forall|j: int| s0.len() <= j < moves@.len() implies move_cycle((#[trigger] moves@[j]).move_type) is None by {
            let k = j - s0.len();
            assert(moves@[s0.len() + k].move_type == inter_move_at(*solution, ps[k].0, ps[k].1));
        }
    }
}

/// Appends every improving move of the neighbourhood inside one tour.
fn push_improving_intra(
    solution: &Solution,
    instance: &TsplibInstance,
    cycle: CycleId,
    nb: NeighborhoodType,
    moves: &mut Vec<EvaluatedMove>,
)
    requires
        instance.wf(),
        solution.well_formed(instance.dimension as int),
        all_improving(old(moves)@, instance.matrix(), *solution),
    ensures
        all_improving(final(moves)@, instance.matrix(), *solution),
        final(moves)@.len() >= old(moves)@.len(),
        forall|j: int| 0 <= j < old(moves)@.len() ==> #[trigger] final(moves)@[j] == old(moves)@[j],
        forall|j: int| old(moves)@.len() <= j < final(moves)@.len() ==> move_cycle((#[trigger] final(moves)@[j]).move_type) == Some(cycle),
        unique_from(final(moves)@, old(moves)@.len() as int),
        forall|mv: Move| lists_move(old(moves)@, mv) ==> #[trigger] lists_move(final(moves)@, mv),
        intra_listed(instance.matrix(), *solution, nb, cycle, final(moves)@),
        final(moves)@.len() == old(moves)@.len() ==> intra_optimal(instance.matrix(), *solution, nb, cycle),
{
    let ghost m = instance.matrix();
    let ghost start = moves@.len();
    let ghost s0 = moves@;
    let ghost mut ps: Seq<(int, int)> = Seq::empty();
    let n = solution.get_cycle(cycle).len();
    let mut i: usize = 0;
    while i < n
        invariant
            tagged(moves@, s0, ps, |p: (int, int)| intra_move_at(*solution, nb, cycle, p.0, p.1), i as int, 0),
            forall|k: int| 0 <= k < ps.len() ==> 0 <= (#[trigger] ps[k]).0 < ps[k].1 < n,
            instance.wf(),
            m == instance.matrix(),
            solution.well_formed(instance.dimension as int),
            n == solution.cycle_of(cycle).len(),
            0 <= i <= n,
            all_improving(moves@, m, *solution),
            moves@.len() >= start,
            forall|mv: Move| lists_move(s0, mv) ==> #[trigger] lists_move(moves@, mv),
            match nb {
                NeighborhoodType::VertexExchange => forall|p: int, q: int|
                    0 <= p < i && p < q < n && move_gain(m, *solution, #[trigger] vertex_move_at(*solution, cycle, p, q)) < 0
                        ==> lists_move(moves@, vertex_move_at(*solution, cycle, p, q)),
                NeighborhoodType::EdgeExchange => forall|p: int, q: int|
                    p < i && edge_pair_ok(n as int, p, q) && move_gain(m, *solution, #[trigger] edge_move_at(*solution, cycle, p, q)) < 0
                        ==> lists_move(moves@, edge_move_at(*solution, cycle, p, q)),
            },
            moves@.len() == start ==> match nb {
                NeighborhoodType::VertexExchange => forall|p: int, q: int|
                    0 <= p < i && p < q < n ==> move_gain(m, *solution, #[trigger] vertex_move_at(*solution, cycle, p, q)) >= 0,
                NeighborhoodType::EdgeExchange => forall|p: int, q: int|
                    p < i && edge_pair_ok(n as int, p, q) ==> move_gain(m, *solution, #[trigger] edge_move_at(*solution, cycle, p, q)) >= 0,
            },
        decreases n - i,
    {
        let mut j: usize = i + 1;
        while j < n
            invariant
                tagged(moves@, s0, ps, |p: (int, int)| intra_move_at(*solution, nb, cycle, p.0, p.1), i as int, j as int),
                forall|k: int| 0 <= k < ps.len() ==> 0 <= (#[trigger] ps[k]).0 < ps[k].1 < n,
                instance.wf(),
                m == instance.matrix(),
                solution.well_formed(instance.dimension as int),
                n == solution.cycle_of(cycle).len(),
                0 <= i < n,
                i + 1 <= j <= n,
                all_improving(moves@, m, *solution),
                moves@.len() >= start,
                forall|mv: Move| lists_move(s0, mv) ==> #[trigger] lists_move(moves@, mv),
                match nb {
                    NeighborhoodType::VertexExchange => forall|p: int, q: int|
                        ((0 <= p < i && p < q < n) || (p == i && p < q < j)) && move_gain(m, *solution, #[trigger] vertex_move_at(*solution, cycle, p, q)) < 0
                            ==> lists_move(moves@, vertex_move_at(*solution, cycle, p, q)),
                    NeighborhoodType::EdgeExchange => forall|p: int, q: int|
                        ((p < i && edge_pair_ok(n as int, p, q)) || (p == i && q < j && edge_pair_ok(n as int, p, q))) && move_gain(m, *solution, #[trigger] edge_move_at(*solution, cycle, p, q)) < 0
                            ==> lists_move(moves@, edge_move_at(*solution, cycle, p, q)),
                },
                moves@.len() == start ==> match nb {
                    NeighborhoodType::VertexExchange => forall|p: int, q: int|
                        ((0 <= p < i && p < q < n) || (p == i && p < q < j)) ==> move_gain(m, *solution, #[trigger] vertex_move_at(*solution, cycle, p, q)) >= 0,
                    NeighborhoodType::EdgeExchange => forall|p: int, q: int|
                        ((p < i && edge_pair_ok(n as int, p, q)) || (p == i && q < j && edge_pair_ok(n as int, p, q))) ==> move_gain(m, *solution, #[trigger] edge_move_at(*solution, cycle, p, q)) >= 0,
                },
            decreases n - j,
        {
            let found = match nb {
                NeighborhoodType::VertexExchange => evaluate_intra_route_vertex_exchange(solution, instance, cycle, i, j),
                NeighborhoodType::EdgeExchange => evaluate_intra_route_edge_exchange(solution, instance, cycle, i, j),
            };
            if let Some(em) = found {
                if em.delta < 0 {
                    proof {
                        lemma_lists_push(moves@, em);
                        lemma_tagged_push(moves@, s0, ps, |p: (int, int)| intra_move_at(*solution, nb, cycle, p.0, p.1), i as int, j as int, em);
                        ps = ps.push((i as int, j as int));
                    }
                    moves.push(em);
                }
            }
            j += 1;
        }
        proof {
            lemma_tagged_next_row(moves@, s0, ps, |p: (int, int)| intra_move_at(*solution, nb, cycle, p.0, p.1), i as int, j as int);
        }
        i += 1;
    }
    proof {
        crate::moves::lemma_split_distinct(solution.cycle1@, solution.cycle2@);
        let c = solution.cycle_of(cycle);
        assert(c.no_duplicates());
        assert forall|x: (int, int), y: (int, int)|
            0 <= x.0 < x.1 < n && 0 <= y.0 < y.1 < n && x != y implies intra_move_at(*solution, nb, cycle, x.0, x.1)
            != intra_move_at(*solution, nb, cycle, y.0, y.1) by {
            if x.0 != y.0 {
                assert(c[x.0] != c[y.0]);
            } else {
                assert(c[x.1] != c[y.1]);
            }
        }
        lemma_tagged_unique_ordered(moves@, s0, ps, |p: (int, int)| intra_move_at(*solution, nb, cycle, p.0, p.1), i as int, 0, n as int);
        assert forall|j: int| s0.len() <= j < moves@.len() implies move_cycle((#[trigger] moves@[j]).move_type) == Some(cycle) by {
            let k = j - s0.len();
            assert(moves@[s0.len() + k].move_type == intra_move_at(*solution, nb, cycle, ps[k].0, ps[k].1));
        }
    }
}

/// Every improving move of the neighbourhood `nb` of `solution`; none exactly
/// when `solution` is a local optimum.
pub fn generate_all_improving_moves(
    nb: NeighborhoodType,
    instance: &TsplibInstance,
    solution: &Solution,
) -> (r: Vec<EvaluatedMove>)
    requires
        instance.wf(),
        solution.well_formed(instance.dimension as int),
    ensures
        all_improving(r@, instance.matrix(), *solution),
        r@.len() == 0 ==> is_local_optimum(instance.matrix(), *solution, nb),
        forall|p1: int, p2: int|
            0 <= p1 < solution.cycle1@.len() && 0 <= p2 < solution.cycle2@.len() && move_gain(
                instance.matrix(),
                *solution,
                #[trigger] inter_move_at(*solution, p1, p2),
            ) < 0 ==> lists_move(r@, inter_move_at(*solution, p1, p2)),
        intra_listed(instance.matrix(), *solution, nb, CycleId::Cycle1, r@),
        intra_listed(instance.matrix(), *solution, nb, CycleId::Cycle2, r@),
        unique_moves(r@),
{
    let mut moves: Vec<EvaluatedMove> = Vec::new();
    push_improving_inter(solution, instance, &mut moves);
    let ghost after_inter = moves@.len();
    push_improving_intra(solution, instance, CycleId::Cycle1, nb, &mut moves);
    let ghost after_one = moves@.len();
    push_improving_intra(solution, instance, CycleId::Cycle2, nb, &mut moves);
    proof {
        let a0 = after_inter as int;
        let a1 = after_one as int;
        assert forall|x: int, y: int|
            0 <= x < moves@.len() && 0 <= y < moves@.len() && x != y implies (#[trigger] moves@[x]).move_type != (
            #[trigger] moves@[y]).move_type by {
            let gx = if x < a0 { 0int } else if x < a1 { 1int } else { 2int };
            let gy = if y < a0 { 0int } else if y < a1 { 1int } else { 2int };
            if gx != gy {
                assert(move_cycle(moves@[x].move_type) != move_cycle(moves@[y].move_type));
            }
        }
        if moves@.len() == 0 {
            assert forall|cycle: CycleId| #[trigger] intra_optimal(instance.matrix(), *solution, nb, cycle) by {
                match cycle {
                    CycleId::Cycle1 => {},
                    CycleId::Cycle2 => {},
                }
            }
        }
    }
    moves
}

/// Configuration of a local search: how moves are chosen, which moves are
/// tried inside a tour, and where the search starts.
pub struct LocalSearch {
    pub variant: SearchVariant,
    pub neighborhood: NeighborhoodType,
    pub initial_solution_type: InitialSolutionType,
    pub name_str: String,
}

/// The predecessor and successor of `node` on its tour, when the tour has at
/// least two nodes.
pub open spec fn neighbors_spec(sol: Solution, node: usize) -> (Option<usize>, Option<usize>) {
    let c = if sol.cycle1@.contains(node) {
        sol.cycle1@
    } else {
        sol.cycle2@
    };
    if !c.contains(node) || c.len() <= 1 {
        (None, None)
    } else {
        let p = crate::moves::pos_of(c, node);
        (Some(c[crate::cost::prev_index(p, c.len() as int)]), Some(c[next_index(p, c.len() as int)]))
    }
}

/// The nodes a move names.
pub open spec fn endpoints(mv: Move) -> Seq<usize> {
    match mv {
        Move::InterRouteExchange { v1, v2 } => seq![v1, v2],
        Move::IntraRouteVertexExchange { v1, v2, .. } => seq![v1, v2],
        Move::IntraRouteEdgeExchange { a, b, c, d, .. } => seq![a, b, c, d],
    }
}

/// `mv` names a node affected by `applied`.
pub open spec fn names_affected(sol: Solution, applied: Move, mv: Move) -> bool {
    exists|e: int| 0 <= e < endpoints(mv).len() && is_affected(sol, applied, #[trigger] endpoints(mv)[e])
}

/// `x` is a node of `mv` or a tour neighbour of one.
pub open spec fn is_affected(sol: Solution, mv: Move, x: usize) -> bool {
    exists|k: int|
        0 <= k < endpoints(mv).len() && {
            let e = #[trigger] endpoints(mv)[k];
            x == e || neighbors_spec(sol, e).0 == Some(x) || neighbors_spec(sol, e).1 == Some(x)
        }
}

/// A cached move can still be applied as it was evaluated: an exchange
/// between the tours names nodes of different tours, an exchange inside a
/// tour names two nodes of that tour, and a 2-opt names two edges that the
/// tour still has in that direction.
pub open spec fn move_valid_spec(sol: Solution, mv: Move) -> bool {
    match mv {
        Move::InterRouteExchange { v1, v2 } => (sol.cycle1@.contains(v1) && sol.cycle2@.contains(v2)) || (
        sol.cycle2@.contains(v1) && sol.cycle1@.contains(v2)),
        Move::IntraRouteVertexExchange { v1, v2, cycle } => sol.cycle_of(cycle).contains(v1)
            && sol.cycle_of(cycle).contains(v2),
        Move::IntraRouteEdgeExchange { a, b, c, d, cycle } => crate::tsplib::has_directed_edge(
            sol.cycle_of(cycle),
            a,
            b,
        ) && crate::tsplib::has_directed_edge(sol.cycle_of(cycle), c, d),
    }
}

/// Adds `x` to `v` unless it is there already.
fn push_unique(v: &mut Vec<usize>, x: usize)
    requires
        old(v)@.no_duplicates(),
    ensures
        final(v)@.no_duplicates(),
        forall|y: usize| #[trigger] final(v)@.contains(y) <==> (old(v)@.contains(y) || y == x),
{
    if crate::tsplib::position_in(v, x).is_none() {
        let ghost before = v@;
        v.push(x);
        assert forall|y: usize| #[trigger] v@.contains(y) <==> (before.contains(y) || y == x) by {
            if v@.contains(y) && y != x {
                let k = choose|k: int| 0 <= k < v@.len() && v@[k] == y;
                assert(before[k] == y);
            }
            if before.contains(y) {
                let k = choose|k: int| 0 <= k < before.len() && before[k] == y;
                assert(v@[k] == y);
            }
            if y == x {
                assert(v@[before.len() as int] == x);
            }
        }
    }
}

/// Locates the tour positions of a move's nodes and evaluates it afresh on
/// `solution`.
pub fn evaluate_move(solution: &Solution, instance: &TsplibInstance, mv: Move) -> (r: Option<EvaluatedMove>)
    requires
        instance.wf(),
        solution.well_formed(instance.dimension as int),
    ensures
        r matches Some(em) ==> delta_is_exact(em, instance.matrix(), *solution),
        r matches Some(em) ==> crate::moves::apply_spec(solution.cycle1@, solution.cycle2@, em.move_type)
            == crate::moves::apply_spec(solution.cycle1@, solution.cycle2@, mv),
        r matches Some(em) ==> move_valid_spec(*solution, mv),
{
    let ghost c1 = solution.cycle1@;
    let ghost c2 = solution.cycle2@;
    proof {
        crate::moves::lemma_split_distinct(c1, c2);
    }
    match mv {
        Move::InterRouteExchange { v1, v2 } => match (solution.find_node(v1), solution.find_node(v2)) {
            (Some((CycleId::Cycle1, p1)), Some((CycleId::Cycle2, p2))) => {
                proof {
                    crate::moves::lemma_pos_of(c1, p1 as int);
                    crate::moves::lemma_pos_of(c2, p2 as int);
                }
                evaluate_inter_route_exchange(solution, instance, p1, p2)
            },
            (Some((CycleId::Cycle2, p2)), Some((CycleId::Cycle1, p1))) => {
                proof {
                    crate::moves::lemma_pos_of(c1, p1 as int);
                    crate::moves::lemma_pos_of(c2, p2 as int);
                    assert(c2.contains(v1));
                    assert(!c1.contains(v1));
                }
                evaluate_inter_route_exchange(solution, instance, p1, p2)
            },
            _ => None,
        },
        Move::IntraRouteVertexExchange { v1, v2, cycle } => match (solution.find_node(v1), solution.find_node(v2)) {
            (Some((k1, p1)), Some((k2, p2))) => {
                if k1 == cycle && k2 == cycle {
                    let r = evaluate_intra_route_vertex_exchange(solution, instance, cycle, p1, p2);
                    proof {
                        let c = solution.cycle_of(cycle);
                        crate::moves::lemma_pos_of(c, p1 as int);
                        crate::moves::lemma_pos_of(c, p2 as int);
                        if p1 != p2 {
                            let i = p1 as int;
                            let j = p2 as int;
                            assert(crate::moves::swap_entries(c, i, j) =~= crate::moves::swap_entries(c, j, i));
                        }
                    }
                    r
                } else {
                    None
                }
            },
            _ => None,
        },
        Move::IntraRouteEdgeExchange { a, b, c, d, cycle } => match (solution.find_node(a), solution.find_node(c)) {
            (Some((ka, pa)), Some((kc, pc))) => {
                if ka == cycle && kc == cycle {
                    let cv = solution.get_cycle(cycle);
                    let n = cv.len();
                    if cv[crate::moves::next_pos(pa, n)] != b || cv[crate::moves::next_pos(pc, n)] != d {
                        return None;
                    }
                    proof {
                        assert(crate::tsplib::has_directed_edge(cv@, a, b));
                        assert(crate::tsplib::has_directed_edge(cv@, c, d));
                    }
                    evaluate_intra_route_edge_exchange(solution, instance, cycle, pa, pc)
                } else {
                    None
                }
            },
            _ => None,
        },
    }
}

impl LocalSearch {
    /// The predecessor and successor of `node` on its tour.
    pub fn get_neighbors(&self, solution: &Solution, node: usize) -> (r: (Option<usize>, Option<usize>))
        requires
            solution.distinct(),
        ensures
            r == neighbors_spec(*solution, node),
    {
        proof {
            crate::moves::lemma_split_distinct(solution.cycle1@, solution.cycle2@);
        }
        match solution.find_node(node) {
            Some((cycle_id, pos)) => {
                let cycle = solution.get_cycle(cycle_id);
                let n = cycle.len();
                proof {
                    crate::moves::lemma_pos_of(cycle@, pos as int);
                }
                if n <= 1 {
                    (None, None)
                } else {
                    let pred = cycle[crate::moves::prev_pos(pos, n)];
                    let succ = cycle[crate::moves::next_pos(pos, n)];
                    (Some(pred), Some(succ))
                }
            },
            None => (None, None),
        }
    }

    /// Whether a cached move can still be applied as it was evaluated.
    pub fn is_move_valid(&self, solution: &Solution, move_type: &Move) -> (r: bool)
        requires
            solution.distinct(),
        ensures
            r == move_valid_spec(*solution, *move_type),
    {
        proof {
            crate::moves::lemma_split_distinct(solution.cycle1@, solution.cycle2@);
        }
        match *move_type {
            Move::InterRouteExchange { v1, v2 } => {
                match (solution.find_node(v1), solution.find_node(v2)) {
                    (Some((c1, _)), Some((c2, _))) => c1 != c2,
                    _ => false,
                }
            },
            Move::IntraRouteVertexExchange { v1, v2, cycle } => {
                match (solution.find_node(v1), solution.find_node(v2)) {
                    (Some((c1, _)), Some((c2, _))) => c1 == cycle && c2 == cycle,
                    _ => false,
                }
            },
            Move::IntraRouteEdgeExchange { a, b, c, d, cycle } => {
                solution.check_edge_in_cycle(cycle, a, b) && solution.check_edge_in_cycle(cycle, c, d)
            },
        }
    }

    /// The nodes of an applied move together with their current tour
    /// neighbours, each once.
    pub fn identify_affected_nodes(&self, applied_move: &Move, solution: &Solution) -> (r: Vec<usize>)
        requires
            solution.distinct(),
        ensures
            r@.no_duplicates(),
            forall|x: usize| #[trigger] r@.contains(x) <==> is_affected(*solution, *applied_move, x),
    {
        let mut affected: Vec<usize> = Vec::new();
        let ends: Vec<usize> = match *applied_move {
            Move::InterRouteExchange { v1, v2 } => vec![v1, v2],
            Move::IntraRouteVertexExchange { v1, v2, .. } => vec![v1, v2],
            Move::IntraRouteEdgeExchange { a, b, c, d, .. } => vec![a, b, c, d],
        };
        assert(ends@ =~= endpoints(*applied_move));
        let mut k: usize = 0;
        while k < ends.len()
            invariant
                solution.distinct(),
                ends@ == endpoints(*applied_move),
                0 <= k <= ends@.len(),
                affected@.no_duplicates(),
                forall|x: usize| #[trigger] affected@.contains(x) <==> exists|j: int|
                    0 <= j < k && {
                        let e = #[trigger] ends@[j];
                        x == e || neighbors_spec(*solution, e).0 == Some(x) || neighbors_spec(*solution, e).1 == Some(x)
                    },
            decreases ends@.len() - k,
        {
            let node = ends[k];
            let ghost before = affected@;
            push_unique(&mut affected, node);
            let (pred, succ) = self.get_neighbors(solution, node);
            if let (Some(p), Some(s)) = (pred, succ) {
                push_unique(&mut affected, p);
                push_unique(&mut affected, s);
            }
            assert forall|x: usize| #[trigger] affected@.contains(x) <==> exists|j: int|
                0 <= j < k + 1 && {
                    let e = #[trigger] ends@[j];
                    x == e || neighbors_spec(*solution, e).0 == Some(x) || neighbors_spec(*solution, e).1 == Some(x)
                } by {
                if affected@.contains(x) && !before.contains(x) {
                    assert(ends@[k as int] == node);
                }
                if before.contains(x) {
                    let j = choose|j: int| 0 <= j < k && {
                        let e = #[trigger] ends@[j];
                        x == e || neighbors_spec(*solution, e).0 == Some(x) || neighbors_spec(*solution, e).1 == Some(x)
                    };
                    assert(0 <= j < k + 1);
                }
            }
            k += 1;
        }
        affected
    }

    /// Whether the move names one of the `affected` nodes.
    pub fn move_involves_nodes(&self, move_type: &Move, affected_nodes: &Vec<usize>) -> (r: bool)
        ensures
            r == exists|k: int| 0 <= k < endpoints(*move_type).len() && affected_nodes@.contains(#[trigger] endpoints(*move_type)[k]),
    {
        if affected_nodes.len() == 0 {
            return false;
        }
        let ends: Vec<usize> = match *move_type {
            Move::InterRouteExchange { v1, v2 } => vec![v1, v2],
            Move::IntraRouteVertexExchange { v1, v2, .. } => vec![v1, v2],
            Move::IntraRouteEdgeExchange { a, b, c, d, .. } => vec![a, b, c, d],
        };
        assert(ends@ =~= endpoints(*move_type));
        let mut k: usize = 0;
        while k < ends.len()
            invariant
                ends@ == endpoints(*move_type),
                0 <= k <= ends@.len(),
                forall|j: int| 0 <= j < k ==> !affected_nodes@.contains(#[trigger] ends@[j]),
            decreases ends@.len() - k,
        {
            if crate::tsplib::position_in(affected_nodes, ends[k]).is_some() {
                return true;
            }
            k += 1;
        }
        false
    }
}

/// Some listed move is `mv`.
pub open spec fn lists_move(r: Seq<EvaluatedMove>, mv: Move) -> bool {
    exists|k: int| 0 <= k < r.len() && #[trigger] r[k].move_type == mv
}

/// The move names a node of `nodes`.
pub open spec fn names_one_of(mv: Move, nodes: Seq<usize>) -> bool {
    exists|e: int| 0 <= e < endpoints(mv).len() && nodes.contains(#[trigger] endpoints(mv)[e])
}

pub proof fn lemma_lists_push(s: Seq<EvaluatedMove>, x: EvaluatedMove)
    ensures
        forall|mv: Move| lists_move(s, mv) ==> #[trigger] lists_move(s.push(x), mv),
        lists_move(s.push(x), x.move_type),
{
    assert forall|mv: Move| lists_move(s, mv) implies #[trigger] lists_move(s.push(x), mv) by {
        let k = choose|k: int| 0 <= k < s.len() && #[trigger] s[k].move_type == mv;
        assert(s.push(x)[k].move_type == mv);
    }
    assert(s.push(x)[s.len() as int].move_type == x.move_type);
}

/// Every move listed in `s` is listed in `t` when `t` extends `s`.
pub proof fn lemma_lists_grow_all(s: Seq<EvaluatedMove>, t: Seq<EvaluatedMove>)
    requires
        t.len() >= s.len(),
        forall|j: int| 0 <= j < s.len() ==> #[trigger] t[j] == s[j],
    ensures
        forall|mv: Move| lists_move(s, mv) ==> #[trigger] lists_move(t, mv),
{
    assert forall|mv: Move| lists_move(s, mv) implies #[trigger] lists_move(t, mv) by {
        let k = choose|k: int| 0 <= k < s.len() && #[trigger] s[k].move_type == mv;
        assert(t[k].move_type == mv);
    }
}

/// Appends the evaluated move when it has a negative delta.
fn push_if_improving(moves: &mut Vec<EvaluatedMove>, found: Option<EvaluatedMove>)
    ensures
        (found is Some && found->Some_0.delta < 0) ==> final(moves)@ == old(moves)@.push(found->Some_0),
        !(found is Some && found->Some_0.delta < 0) ==> final(moves)@ == old(moves)@,
{
    if let Some(em) = found {
        if em.delta < 0 {
            moves.push(em);
        }
    }
}

/// The exchange of the node at `pa` of tour `ca` with position `p` of the
/// other tour is listed when it is improving.
pub open spec fn inter_ok_at(m: Seq<Seq<i32>>, sol: Solution, r: Seq<EvaluatedMove>, ca: CycleId, pa: int, p: int) -> bool {
    let mv = if ca == CycleId::Cycle1 {
        inter_move_at(sol, pa, p)
    } else {
        inter_move_at(sol, p, pa)
    };
    move_gain(m, sol, mv) < 0 ==> lists_move(r, mv)
}

/// The edges at positions `p` and `q` of a tour of length `n` can be
/// exchanged (in this order).
pub open spec fn edge_positions_ok(n: int, p: int, q: int) -> bool {
    &&& n >= 3
    &&& 0 <= p < n && 0 <= q < n && p != q
    &&& next_index(p, n) != q
    &&& next_index(q, n) != p
}

pub open spec fn edge_listed(m: Seq<Seq<i32>>, sol: Solution, r: Seq<EvaluatedMove>, ca: CycleId, p: int, q: int) -> bool {
    (edge_positions_ok(sol.cycle_of(ca).len() as int, p, q) && move_gain(m, sol, edge_move_at(sol, ca, p, q)) < 0)
        ==> lists_move(r, edge_move_at(sol, ca, p, q))
}

/// The move of `nb` between the node at `pa` of tour `ca` and position `x` of
/// the same tour is listed when it is improving; for 2-opt, both edges at the
/// node, in both orders.
pub open spec fn intra_ok_at(
    m: Seq<Seq<i32>>,
    sol: Solution,
    nb: NeighborhoodType,
    r: Seq<EvaluatedMove>,
    ca: CycleId,
    pa: int,
    x: int,
) -> bool {
    let n = sol.cycle_of(ca).len() as int;
    match nb {
        NeighborhoodType::VertexExchange => {
            let mv = vertex_move_at(sol, ca, if pa < x { pa } else { x }, if pa < x { x } else { pa });
            (x != pa && n >= 2 && move_gain(m, sol, mv) < 0) ==> lists_move(r, mv)
        },
        NeighborhoodType::EdgeExchange => {
            let pp = crate::cost::prev_index(pa, n);
            &&& edge_listed(m, sol, r, ca, pa, x)
            &&& edge_listed(m, sol, r, ca, x, pa)
            &&& edge_listed(m, sol, r, ca, pp, x)
            &&& edge_listed(m, sol, r, ca, x, pp)
        },
    }
}

/// Every improving move around `a` is listed in `r`.
pub open spec fn around_complete(m: Seq<Seq<i32>>, sol: Solution, nb: NeighborhoodType, r: Seq<EvaluatedMove>, a: usize) -> bool {
    match loc_spec(sol, a) {
        None => true,
        Some((ca, pa)) => {
            &&& forall|p: int|
                0 <= p < sol.cycle_of(ca.other_spec()).len() ==> #[trigger] inter_ok_at(m, sol, r, ca, pa, p)
            &&& forall|x: int| 0 <= x < sol.cycle_of(ca).len() ==> #[trigger] intra_ok_at(m, sol, nb, r, ca, pa, x)
        },
    }
}

proof fn lemma_inter_ok_mono(
    m: Seq<Seq<i32>>,
    sol: Solution,
    r: Seq<EvaluatedMove>,
    r2: Seq<EvaluatedMove>,
    ca: CycleId,
    pa: int,
    p: int,
)
    requires
        forall|mv: Move| lists_move(r, mv) ==> #[trigger] lists_move(r2, mv),
        inter_ok_at(m, sol, r, ca, pa, p),
    ensures
        inter_ok_at(m, sol, r2, ca, pa, p),
{
}

proof fn lemma_intra_ok_mono(
    m: Seq<Seq<i32>>,
    sol: Solution,
    nb: NeighborhoodType,
    r: Seq<EvaluatedMove>,
    r2: Seq<EvaluatedMove>,
    ca: CycleId,
    pa: int,
    x: int,
)
    requires
        forall|mv: Move| lists_move(r, mv) ==> #[trigger] lists_move(r2, mv),
        intra_ok_at(m, sol, nb, r, ca, pa, x),
    ensures
        intra_ok_at(m, sol, nb, r2, ca, pa, x),
{
}

proof fn lemma_around_sup(
    m: Seq<Seq<i32>>,
    sol: Solution,
    nb: NeighborhoodType,
    r: Seq<EvaluatedMove>,
    r2: Seq<EvaluatedMove>,
    a: usize,
)
    requires
        forall|mv: Move| lists_move(r, mv) ==> #[trigger] lists_move(r2, mv),
        around_complete(m, sol, nb, r, a),
    ensures
        around_complete(m, sol, nb, r2, a),
{
    match loc_spec(sol, a) {
        None => {},
        Some((ca, pa)) => {
            assert forall|p: int| 0 <= p < sol.cycle_of(ca.other_spec()).len() implies #[trigger] inter_ok_at(m, sol, r2, ca, pa, p) by {
                lemma_inter_ok_mono(m, sol, r, r2, ca, pa, p);
            }
            assert forall|x: int| 0 <= x < sol.cycle_of(ca).len() implies #[trigger] intra_ok_at(m, sol, nb, r2, ca, pa, x) by {
                lemma_intra_ok_mono(m, sol, nb, r, r2, ca, pa, x);
            }
        },
    }
}

proof fn lemma_around_mono(
    m: Seq<Seq<i32>>,
    sol: Solution,
    nb: NeighborhoodType,
    r: Seq<EvaluatedMove>,
    r2: Seq<EvaluatedMove>,
    a: usize,
)
    requires
        r2.len() >= r.len(),
        forall|j: int| 0 <= j < r.len() ==> #[trigger] r2[j] == r[j],
        around_complete(m, sol, nb, r, a),
    ensures
        around_complete(m, sol, nb, r2, a),
{
    lemma_lists_grow_all(r, r2);
    match loc_spec(sol, a) {
        None => {},
        Some((ca, pa)) => {
            assert forall|p: int| 0 <= p < sol.cycle_of(ca.other_spec()).len() implies #[trigger] inter_ok_at(m, sol, r2, ca, pa, p) by {
                lemma_inter_ok_mono(m, sol, r, r2, ca, pa, p);
            }
            assert forall|x: int| 0 <= x < sol.cycle_of(ca).len() implies #[trigger] intra_ok_at(m, sol, nb, r2, ca, pa, x) by {
                lemma_intra_ok_mono(m, sol, nb, r, r2, ca, pa, x);
            }
        },
    }
}

/// Appends the exchange of positions `pa` and `q` of tour `ca` when it is
/// improving.
fn push_vertex_at(
    instance: &TsplibInstance,
    solution: &Solution,
    ca: CycleId,
    pa: usize,
    q: usize,
    node_a: usize,
    moves: &mut Vec<EvaluatedMove>,
)
    requires
        instance.wf(),
        solution.well_formed(instance.dimension as int),
        all_improving(old(moves)@, instance.matrix(), *solution),
        pa < solution.cycle_of(ca).len(),
        q < solution.cycle_of(ca).len(),
        solution.cycle_of(ca)[pa as int] == node_a,
    ensures
        all_improving(final(moves)@, instance.matrix(), *solution),
        final(moves)@.len() >= old(moves)@.len(),
        forall|j: int| 0 <= j < old(moves)@.len() ==> #[trigger] final(moves)@[j] == old(moves)@[j],
        forall|j: int|
            old(moves)@.len() <= j < final(moves)@.len() ==> endpoints(#[trigger] final(moves)@[j].move_type).contains(
                node_a,
            ),
        intra_ok_at(instance.matrix(), *solution, NeighborhoodType::VertexExchange, final(moves)@, ca, pa as int, q as int),
{
    let ghost m = instance.matrix();
    let ghost start = moves@;
    let ghost n = solution.cycle_of(ca).len() as int;
    let ghost mv = vertex_move_at(*solution, ca, if pa < q { pa as int } else { q as int }, if pa < q { q as int } else { pa as int });
    let found = evaluate_intra_route_vertex_exchange(solution, instance, ca, pa, q);
    push_if_improving(moves, found);
    proof {
        lemma_lists_push(start, found->Some_0);
        if found is Some {
            assert(found->Some_0.move_type == mv);
            assert(found->Some_0.delta == move_gain(m, *solution, mv));
            if found->Some_0.delta < 0 {
                assert(moves@ == start.push(found->Some_0));
                assert(lists_move(moves@, mv));
            }
        }
        if moves@.len() > start.len() {
            assert(endpoints(moves@[start.len() as int].move_type)[if pa < q { 0int } else { 1int }] == node_a);
        }
        assert(mv == vertex_move_at(*solution, ca, if (pa as int) < (q as int) { pa as int } else { q as int }, if (pa as int) < (q as int) { q as int } else { pa as int }));
    }
}

/// Appends the improving 2-opts between the two edges at the node at `pa`
/// of tour `ca` (starting at `pa` and at `pp`, the position before it) and
/// the edge starting at `q`, in both orders.
#[verifier::rlimit(60)]
fn push_edges_at(
    instance: &TsplibInstance,
    solution: &Solution,
    ca: CycleId,
    pa: usize,
    pp: usize,
    q: usize,
    node_a: usize,
    moves: &mut Vec<EvaluatedMove>,
)
    requires
        instance.wf(),
        solution.well_formed(instance.dimension as int),
        all_improving(old(moves)@, instance.matrix(), *solution),
        pa < solution.cycle_of(ca).len(),
        solution.cycle_of(ca)[pa as int] == node_a,
        pp == crate::cost::prev_index(pa as int, solution.cycle_of(ca).len() as int),
    ensures
        all_improving(final(moves)@, instance.matrix(), *solution),
        final(moves)@.len() >= old(moves)@.len(),
        forall|j: int| 0 <= j < old(moves)@.len() ==> #[trigger] final(moves)@[j] == old(moves)@[j],
        forall|j: int|
            old(moves)@.len() <= j < final(moves)@.len() ==> endpoints(#[trigger] final(moves)@[j].move_type).contains(
                node_a,
            ),
        intra_ok_at(instance.matrix(), *solution, NeighborhoodType::EdgeExchange, final(moves)@, ca, pa as int, q as int),
{
    let ghost n = solution.cycle_of(ca).len() as int;
    let ghost s0 = moves@;
    assert(crate::cost::next_index(pp as int, n) == pa);
    push_edge_at(instance, solution, ca, pa, q, node_a, 0, moves);
    let ghost s1 = moves@;
    push_edge_at(instance, solution, ca, q, pa, node_a, 2, moves);
    let ghost s2 = moves@;
    push_edge_at(instance, solution, ca, pp, q, node_a, 1, moves);
    let ghost s3 = moves@;
    push_edge_at(instance, solution, ca, q, pp, node_a, 3, moves);
    proof {
        lemma_lists_grow_all(s1, moves@);
        lemma_lists_grow_all(s2, moves@);
        lemma_lists_grow_all(s3, moves@);
        let m = instance.matrix();
        lemma_edge_listed_mono(m, *solution, s1, moves@, ca, pa as int, q as int);
        lemma_edge_listed_mono(m, *solution, s2, moves@, ca, q as int, pa as int);
        lemma_edge_listed_mono(m, *solution, s3, moves@, ca, pp as int, q as int);
    }
}

proof fn lemma_edge_listed_mono(
    m: Seq<Seq<i32>>,
    sol: Solution,
    r: Seq<EvaluatedMove>,
    r2: Seq<EvaluatedMove>,
    ca: CycleId,
    p: int,
    q: int,
)
    requires
        forall|mv: Move| lists_move(r, mv) ==> #[trigger] lists_move(r2, mv),
        edge_listed(m, sol, r, ca, p, q),
    ensures
        edge_listed(m, sol, r2, ca, p, q),
{
}

/// Appends the 2-opt of the edges at positions `p` and `q` of tour `ca`
/// when it is legal and improving; `node_a` is its end number `e`.
fn push_edge_at(
    instance: &TsplibInstance,
    solution: &Solution,
    ca: CycleId,
    p: usize,
    q: usize,
    node_a: usize,
    e: usize,
    moves: &mut Vec<EvaluatedMove>,
)
    requires
        instance.wf(),
        solution.well_formed(instance.dimension as int),
        all_improving(old(moves)@, instance.matrix(), *solution),
        e < 4,
        edge_positions_ok(solution.cycle_of(ca).len() as int, p as int, q as int) ==> endpoints(
            edge_move_at(*solution, ca, p as int, q as int),
        )[e as int] == node_a,
    ensures
        all_improving(final(moves)@, instance.matrix(), *solution),
        final(moves)@.len() >= old(moves)@.len(),
        forall|j: int| 0 <= j < old(moves)@.len() ==> #[trigger] final(moves)@[j] == old(moves)@[j],
        forall|j: int|
            old(moves)@.len() <= j < final(moves)@.len() ==> endpoints(#[trigger] final(moves)@[j].move_type).contains(
                node_a,
            ),
        edge_listed(instance.matrix(), *solution, final(moves)@, ca, p as int, q as int),
{
    let ghost start = moves@;
    let found = evaluate_intra_route_edge_exchange(solution, instance, ca, p, q);
    push_if_improving(moves, found);
    proof {
        lemma_lists_push(start, found->Some_0);
        if moves@.len() > start.len() {
            assert(endpoints(moves@[start.len() as int].move_type)[e as int] == node_a);
        }
    }
}

/// The move of least delta, the first of them on ties.
pub fn best_move(moves: &Vec<EvaluatedMove>) -> (r: Option<EvaluatedMove>)
    ensures
        r is None <==> moves@.len() == 0,
        r matches Some(em) ==> (exists|k: int| 0 <= k < moves@.len() && moves@[k] == em) && forall|k: int|
            0 <= k < moves@.len() ==> em.delta <= #[trigger] moves@[k].delta,
{
    if moves.len() == 0 {
        return None;
    }
    let mut best: usize = 0;
    let mut i: usize = 1;
    while i < moves.len()
        invariant
            moves@.len() > 0,
            0 <= best < moves@.len(),
            1 <= i <= moves@.len(),
            forall|k: int| 0 <= k < i ==> moves@[best as int].delta <= #[trigger] moves@[k].delta,
        decreases moves@.len() - i,
    {
        if moves[i].delta < moves[best].delta {
            best = i;
        }
        i += 1;
    }
    Some(moves[best])
}

/// The moves of the list are ordered by ascending delta.
pub open spec fn sorted_by_delta(l: Seq<EvaluatedMove>) -> bool {
    forall|i: int, j: int| 0 <= i < j < l.len() ==> (#[trigger] l[i]).delta <= (#[trigger] l[j]).delta
}

/// No move is listed twice.
pub open spec fn unique_moves(l: Seq<EvaluatedMove>) -> bool {
    forall|i: int, j: int| 0 <= i < l.len() && 0 <= j < l.len() && i != j ==> (#[trigger] l[i]).move_type != (
    #[trigger] l[j]).move_type
}

/// Inserts `em` after every move of no greater delta, unless its move is
/// listed already.
fn insert_sorted(list: &mut Vec<EvaluatedMove>, em: EvaluatedMove)
    requires
        sorted_by_delta(old(list)@),
        unique_moves(old(list)@),
    ensures
        sorted_by_delta(final(list)@),
        unique_moves(final(list)@),
        lists_move(final(list)@, em.move_type),
        forall|mv: Move| #[trigger] lists_move(final(list)@, mv) <==> (lists_move(old(list)@, mv) || mv == em.move_type),
        forall|k: int| 0 <= k < final(list)@.len() ==> #[trigger] final(list)@[k] == em || old(list)@.contains(final(list)@[k]),
{
    let ghost l0 = list@;
    let mut k: usize = 0;
    while k < list.len()
        invariant
            list@ == l0,
            sorted_by_delta(l0),
            unique_moves(l0),
            0 <= k <= list@.len(),
            forall|t: int| 0 <= t < k ==> (#[trigger] list@[t]).move_type != em.move_type,
        decreases list@.len() - k,
    {
        if list[k].move_type == em.move_type {
            assert(lists_move(l0, em.move_type));
            proof {
                assert forall|mv: Move| #[trigger] lists_move(l0, mv) <==> (lists_move(l0, mv) || mv == em.move_type) by {}
                assert forall|q: int| 0 <= q < l0.len() implies #[trigger] l0[q] == em || l0.contains(l0[q]) by {}
            }
            assert(sorted_by_delta(list@));
            assert(unique_moves(list@));
            return;
        }
        k += 1;
    }
    let mut i: usize = 0;
    while i < list.len() && list[i].delta <= em.delta
        invariant
            list@ == l0,
            sorted_by_delta(l0),
            unique_moves(l0),
            0 <= i <= list@.len(),
            forall|t: int| 0 <= t < i ==> (#[trigger] list@[t]).delta <= em.delta,
        decreases list@.len() - i,
    {
        i += 1;
    }
    list.insert(i, em);
    proof {
        let l = list@;
        assert(l == l0.insert(i as int, em));
        assert forall|a: int, b: int| 0 <= a < b < l.len() implies (#[trigger] l[a]).delta <= (#[trigger] l[b]).delta by {
            if a < i && b == i {
            } else if a == i && b > i {
                assert(l0[i as int].delta > em.delta);
                assert(l0[i as int].delta <= l0[b - 1].delta);
            } else if a < i && b > i {
                assert(l0[a].delta <= em.delta);
            }
        }
        assert forall|a: int, b: int| 0 <= a < l.len() && 0 <= b < l.len() && a != b implies (#[trigger] l[a]).move_type
            != (#[trigger] l[b]).move_type by {
            if a == i && b < i {
            } else if a == i && b > i {
                assert(l[b] == l0[b - 1]);
            } else if b == i && a < i {
            } else if b == i && a > i {
                assert(l[a] == l0[a - 1]);
            }
        }
        assert forall|mv: Move| #[trigger] lists_move(l, mv) <==> (lists_move(l0, mv) || mv == em.move_type) by {
            if lists_move(l, mv) {
                let q = choose|q: int| 0 <= q < l.len() && #[trigger] l[q].move_type == mv;
                if q < i {
                    assert(l0[q].move_type == mv);
                } else if q > i {
                    assert(l0[q - 1].move_type == mv);
                }
            }
            if lists_move(l0, mv) {
                let q = choose|q: int| 0 <= q < l0.len() && #[trigger] l0[q].move_type == mv;
                if q < i {
                    assert(l[q].move_type == mv);
                } else {
                    assert(l[q + 1].move_type == mv);
                }
            }
            assert(l[i as int].move_type == em.move_type);
        }
        assert forall|q: int| 0 <= q < l.len() implies #[trigger] l[q] == em || l0.contains(l[q]) by {
            if q < i {
                assert(l0[q] == l[q]);
            } else if q > i {
                assert(l0[q - 1] == l[q]);
            }
        }
    }
}

/// Removing a move keeps the list ordered and free of repeats.
pub proof fn lemma_remove_keeps(l: Seq<EvaluatedMove>, idx: int)
    requires
        0 <= idx < l.len(),
        sorted_by_delta(l),
        unique_moves(l),
    ensures
        sorted_by_delta(l.remove(idx)),
        unique_moves(l.remove(idx)),
{
    let r = l.remove(idx);
    assert forall|a: int, b: int| 0 <= a < b < r.len() implies (#[trigger] r[a]).delta <= (#[trigger] r[b]).delta by {
        let a2 = if a < idx { a } else { a + 1 };
        let b2 = if b < idx { b } else { b + 1 };
        assert(r[a] == l[a2] && r[b] == l[b2]);
    }
    assert forall|a: int, b: int| 0 <= a < r.len() && 0 <= b < r.len() && a != b implies (#[trigger] r[a]).move_type != (
    #[trigger] r[b]).move_type by {
        let a2 = if a < idx { a } else { a + 1 };
        let b2 = if b < idx { b } else { b + 1 };
        assert(r[a] == l[a2] && r[b] == l[b2]);
    }
}

/// Tour and position of `v` in `sol`, looking in the first tour first.
pub open spec fn loc_spec(sol: Solution, v: usize) -> Option<(CycleId, int)> {
    if sol.cycle1@.contains(v) {
        Some((CycleId::Cycle1, crate::moves::pos_of(sol.cycle1@, v)))
    } else if sol.cycle2@.contains(v) {
        Some((CycleId::Cycle2, crate::moves::pos_of(sol.cycle2@, v)))
    } else {
        None
    }
}

/// `e` is the entry of a position table for `v`.
pub open spec fn table_entry_ok(sol: Solution, v: usize, e: Option<(CycleId, usize)>) -> bool {
    match e {
        Some((id, p)) => loc_spec(sol, v) == Some((id, p as int)),
        None => loc_spec(sol, v) is None,
    }
}

/// For every node below `n`, its tour and position in `solution`.
pub fn locate_nodes(solution: &Solution, n: usize) -> (r: Vec<Option<(CycleId, usize)>>)
    requires
        solution.distinct(),
    ensures
        r@.len() == n,
        forall|v: int| 0 <= v < n ==> table_entry_ok(*solution, v as usize, #[trigger] r@[v]),
{
    let ghost c1 = solution.cycle1@;
    let ghost c2 = solution.cycle2@;
    proof {
        crate::moves::lemma_split_distinct(c1, c2);
    }
    let mut table: Vec<Option<(CycleId, usize)>> = Vec::new();
    let mut k: usize = 0;
    while k < n
        invariant
            0 <= k <= n,
            table@.len() == k,
            forall|v: int| 0 <= v < k ==> #[trigger] table@[v] is None,
        decreases n - k,
    {
        table.push(None);
        k += 1;
    }
    let mut p: usize = 0;
    while p < solution.cycle1.len()
        invariant
            c1 == solution.cycle1@,
            c1.no_duplicates(),
            table@.len() == n,
            0 <= p <= c1.len(),
            forall|v: int|
                0 <= v < n ==> #[trigger] table@[v] == (if c1.take(p as int).contains(v as usize) {
                    Some((CycleId::Cycle1, crate::moves::pos_of(c1, v as usize) as usize))
                } else {
                    None
                }),
        decreases c1.len() - p,
    {
        let v = solution.cycle1[p];
        proof {
            crate::moves::lemma_pos_of(c1, p as int);
            lemma_take_contains(c1, p as int);
        }
        if v < n {
            table.set(v, Some((CycleId::Cycle1, p)));
        }
        p += 1;
    }
    assert(c1.take(c1.len() as int) =~= c1);
    let mut p: usize = 0;
    while p < solution.cycle2.len()
        invariant
            c1 == solution.cycle1@,
            c2 == solution.cycle2@,
            c2.no_duplicates(),
            forall|x: usize| c1.contains(x) ==> !#[trigger] c2.contains(x),
            table@.len() == n,
            0 <= p <= c2.len(),
            forall|v: int|
                0 <= v < n ==> #[trigger] table@[v] == (if c1.contains(v as usize) {
                    Some((CycleId::Cycle1, crate::moves::pos_of(c1, v as usize) as usize))
                } else if c2.take(p as int).contains(v as usize) {
                    Some((CycleId::Cycle2, crate::moves::pos_of(c2, v as usize) as usize))
                } else {
                    None
                }),
        decreases c2.len() - p,
    {
        let v = solution.cycle2[p];
        proof {
            crate::moves::lemma_pos_of(c2, p as int);
            lemma_take_contains(c2, p as int);
        }
        if v < n {
            table.set(v, Some((CycleId::Cycle2, p)));
        }
        p += 1;
    }
    assert(c2.take(c2.len() as int) =~= c2);
    proof {
        assert forall|v: int| 0 <= v < n implies table_entry_ok(*solution, v as usize, #[trigger] table@[v]) by {
            let x = v as usize;
            if c1.contains(x) {
                let i = choose|i: int| 0 <= i < c1.len() && c1[i] == x;
                crate::moves::lemma_pos_of(c1, i);
            } else if c2.contains(x) {
                let i = choose|i: int| 0 <= i < c2.len() && c2[i] == x;
                crate::moves::lemma_pos_of(c2, i);
            }
        }
    }
    table
}

/// The first `p + 1` entries hold exactly those of the first `p` and entry `p`.
pub proof fn lemma_take_contains(s: Seq<usize>, p: int)
    requires
        0 <= p < s.len(),
    ensures
        forall|x: usize| #[trigger] s.take(p + 1).contains(x) <==> (s.take(p).contains(x) || x == s[p]),
{
    assert forall|x: usize| #[trigger] s.take(p + 1).contains(x) <==> (s.take(p).contains(x) || x == s[p]) by {
        if s.take(p + 1).contains(x) {
            let i = choose|i: int| 0 <= i < p + 1 && #[trigger] s.take(p + 1)[i] == x;
            if i < p {
                assert(s.take(p)[i] == x);
            }
        }
        if s.take(p).contains(x) {
            let i = choose|i: int| 0 <= i < p && #[trigger] s.take(p)[i] == x;
            assert(s.take(p + 1)[i] == x);
        }
        if x == s[p] {
            assert(s.take(p + 1)[p] == x);
        }
    }
}

/// The candidate move between `a` and `b` does not shorten `sol`: their
/// exchange when they lie in different tours, otherwise the move of `nb`
/// between their positions.
pub open spec fn candidate_pair_ok(m: Seq<Seq<i32>>, sol: Solution, nb: NeighborhoodType, a: usize, b: usize) -> bool {
    match (loc_spec(sol, a), loc_spec(sol, b)) {
        (Some((ca, pa)), Some((cb, pb))) => {
            if a == b {
                true
            } else if ca != cb {
                if ca == CycleId::Cycle1 {
                    move_gain(m, sol, inter_move_at(sol, pa, pb)) >= 0
                } else {
                    move_gain(m, sol, inter_move_at(sol, pb, pa)) >= 0
                }
            } else {
                let n = sol.cycle_of(ca).len() as int;
                match nb {
                    NeighborhoodType::EdgeExchange => (n >= 3 && pa != pb && next_index(pa, n) != pb
                        && next_index(pb, n) != pa) ==> move_gain(m, sol, edge_move_at(sol, ca, pa, pb)) >= 0,
                    NeighborhoodType::VertexExchange => (n >= 2 && pa != pb) ==> move_gain(
                        m,
                        sol,
                        vertex_move_at(sol, ca, if pa < pb { pa } else { pb }, if pa < pb { pb } else { pa }),
                    ) >= 0,
                }
            }
        },
        _ => true,
    }
}

/// The candidate move between `a` and `b`: their exchange when they lie in
/// different tours, otherwise the move of `nb` between their positions, if
/// that move is legal.
pub open spec fn candidate_move(sol: Solution, nb: NeighborhoodType, a: usize, b: usize) -> Option<Move> {
    match (loc_spec(sol, a), loc_spec(sol, b)) {
        (Some((ca, pa)), Some((cb, pb))) => {
            if a == b {
                None
            } else if ca != cb {
                Some(
                    if ca == CycleId::Cycle1 {
                        inter_move_at(sol, pa, pb)
                    } else {
                        inter_move_at(sol, pb, pa)
                    },
                )
            } else {
                let n = sol.cycle_of(ca).len() as int;
                match nb {
                    NeighborhoodType::EdgeExchange => if edge_positions_ok(n, pa, pb) {
                        Some(edge_move_at(sol, ca, pa, pb))
                    } else {
                        None
                    },
                    NeighborhoodType::VertexExchange => if n >= 2 && pa != pb {
                        Some(vertex_move_at(sol, ca, if pa < pb { pa } else { pb }, if pa < pb { pb } else { pa }))
                    } else {
                        None
                    },
                }
            }
        },
        _ => None,
    }
}

/// `mv` is the candidate move between some node and one of its first `k`
/// listed neighbours.
pub open spec fn is_candidate_move(
    sol: Solution,
    nb: NeighborhoodType,
    lists: Seq<Seq<usize>>,
    k: int,
    mv: Move,
) -> bool {
    exists|a: int, t: int|
        0 <= a < lists.len() && 0 <= t < candidate_limit(lists, a, k) && #[trigger] candidate_move(
            sol,
            nb,
            a as usize,
            lists[a][t],
        ) == Some(mv)
}

/// The candidate move between `a` and `b` is listed in `r` when it is
/// improving.
pub open spec fn candidate_listed(m: Seq<Seq<i32>>, sol: Solution, nb: NeighborhoodType, r: Seq<EvaluatedMove>, a: usize, b: usize) -> bool {
    match candidate_move(sol, nb, a, b) {
        Some(mv) => move_gain(m, sol, mv) < 0 ==> lists_move(r, mv),
        None => true,
    }
}

proof fn lemma_candidate_listed_mono(
    m: Seq<Seq<i32>>,
    sol: Solution,
    nb: NeighborhoodType,
    r: Seq<EvaluatedMove>,
    r2: Seq<EvaluatedMove>,
    a: usize,
    b: usize,
)
    requires
        forall|mv: Move| lists_move(r, mv) ==> #[trigger] lists_move(r2, mv),
        candidate_listed(m, sol, nb, r, a, b),
    ensures
        candidate_listed(m, sol, nb, r2, a, b),
{
}

/// How many entries of the neighbour list of `a` are candidates.
pub open spec fn candidate_limit(lists: Seq<Seq<usize>>, a: int, k: int) -> int {
    if k < lists[a].len() {
        k
    } else {
        lists[a].len() as int
    }
}

/// No move between a node and one of its first `k` listed neighbours
/// shortens `sol`.
pub open spec fn is_candidate_optimum(
    m: Seq<Seq<i32>>,
    sol: Solution,
    nb: NeighborhoodType,
    lists: Seq<Seq<usize>>,
    k: int,
) -> bool {
    forall|a: int, t: int|
        0 <= a < lists.len() && 0 <= t < candidate_limit(lists, a, k) ==> #[trigger] candidate_pair_ok(
            m,
            sol,
            nb,
            a as usize,
            lists[a][t],
        )
}

impl LocalSearch {
    /// Improving moves between each node and its `k` nearest neighbours: an
    /// exchange when they lie in different tours, otherwise the move of the
    /// configured neighbourhood between their positions.
    pub fn generate_candidate_moves(
        &self,
        instance: &TsplibInstance,
        solution: &Solution,
        k: usize,
    ) -> (r: Vec<EvaluatedMove>)
        requires
            instance.wf(),
            solution.well_formed(instance.dimension as int),
        ensures
            all_improving(r@, instance.matrix(), *solution),
            forall|j: int|
                0 <= j < r@.len() ==> is_candidate_move(
                    *solution,
                    self.neighborhood,
                    instance.neighbor_lists(),
                    k as int,
                    #[trigger] r@[j].move_type,
                ),
            forall|a: int, t: int|
                0 <= a < instance.neighbor_lists().len() && 0 <= t < candidate_limit(instance.neighbor_lists(), a, k as int)
                    ==> #[trigger] candidate_listed(
                    instance.matrix(),
                    *solution,
                    self.neighborhood,
                    r@,
                    a as usize,
                    instance.neighbor_lists()[a][t],
                ),
            r@.len() == 0 ==> is_candidate_optimum(
                instance.matrix(),
                *solution,
                self.neighborhood,
                instance.neighbor_lists(),
                k as int,
            ),
    {
        let ghost m = instance.matrix();
        let ghost lists = instance.neighbor_lists();
        let ghost nb = self.neighborhood;
        let mut moves: Vec<EvaluatedMove> = Vec::new();
        let n = instance.dimension;
        let located = locate_nodes(solution, n);
        let mut node_a: usize = 0;
        while node_a < n
            invariant
                instance.wf(),
                m == instance.matrix(),
                lists == instance.neighbor_lists(),
                nb == self.neighborhood,
                n == instance.dimension,
                located@.len() == n,
                forall|v: int| 0 <= v < n ==> table_entry_ok(*solution, v as usize, #[trigger] located@[v]),
                solution.well_formed(n as int),
                all_improving(moves@, m, *solution),
                forall|j: int| 0 <= j < moves@.len() ==> is_candidate_move(*solution, nb, lists, k as int, #[trigger] moves@[j].move_type),
                lists.len() == n,
                0 <= node_a <= n,
                forall|a: int, t: int|
                    0 <= a < node_a && 0 <= t < candidate_limit(lists, a, k as int) ==> #[trigger] candidate_listed(
                        m,
                        *solution,
                        nb,
                        moves@,
                        a as usize,
                        lists[a][t],
                    ),
                moves@.len() == 0 ==> forall|a: int, t: int|
                    0 <= a < node_a && 0 <= t < candidate_limit(lists, a, k as int) ==> #[trigger] candidate_pair_ok(
                        m,
                        *solution,
                        nb,
                        a as usize,
                        lists[a][t],
                    ),
            decreases n - node_a,
        {
            assert(lists[node_a as int] == instance.nearest@[node_a as int]@);
            let row = &instance.nearest[node_a];
            let lim = if k < row.len() {
                k
            } else {
                row.len()
            };
            assert(table_entry_ok(*solution, node_a, located@[node_a as int]));
            let mut t: usize = 0;
            while t < lim
                invariant
                    instance.wf(),
                    m == instance.matrix(),
                    lists == instance.neighbor_lists(),
                    nb == self.neighborhood,
                    n == instance.dimension,
                    solution.well_formed(n as int),
                    all_improving(moves@, m, *solution),
                    forall|j: int| 0 <= j < moves@.len() ==> is_candidate_move(*solution, nb, lists, k as int, #[trigger] moves@[j].move_type),
                    lists.len() == n,
                    0 <= node_a < n,
                    forall|a: int, u: int|
                        ((0 <= a < node_a && 0 <= u < candidate_limit(lists, a, k as int)) || (a == node_a && 0 <= u < t))
                            ==> #[trigger] candidate_listed(m, *solution, nb, moves@, a as usize, lists[a][u]),
                    row@ == lists[node_a as int],
                    lim == candidate_limit(lists, node_a as int, k as int),
                    lim <= row@.len(),
                    0 <= t <= lim,
                    located@.len() == n,
                    forall|v: int| 0 <= v < n ==> table_entry_ok(*solution, v as usize, #[trigger] located@[v]),
                    nodes_below(row@, n as int),
                    moves@.len() == 0 ==> forall|a: int, u: int|
                        ((0 <= a < node_a && 0 <= u < candidate_limit(lists, a, k as int)) || (a == node_a && 0 <= u
                            < t)) ==> #[trigger] candidate_pair_ok(m, *solution, nb, a as usize, lists[a][u]),
                decreases lim - t,
            {
                let node_b = row[t];
                assert(table_entry_ok(*solution, node_b, located@[node_b as int]));
                if node_a != node_b {
                    if let (Some((cycle_a, pos_a)), Some((cycle_b, pos_b))) = (located[node_a], located[node_b]) {
                        let found = if cycle_a != cycle_b {
                            if cycle_a == CycleId::Cycle1 {
                                evaluate_inter_route_exchange(solution, instance, pos_a, pos_b)
                            } else {
                                evaluate_inter_route_exchange(solution, instance, pos_b, pos_a)
                            }
                        } else {
                            match self.neighborhood {
                                NeighborhoodType::EdgeExchange => evaluate_candidate_intra_route_edge_exchange(
                                    solution,
                                    instance,
                                    cycle_a,
                                    pos_a,
                                    pos_b,
                                ),
                                NeighborhoodType::VertexExchange => evaluate_intra_route_vertex_exchange(
                                    solution,
                                    instance,
                                    cycle_a,
                                    pos_a,
                                    pos_b,
                                ),
                            }
                        };
                        if let Some(em) = found {
                            if em.delta < 0 {
                                assert(candidate_move(*solution, nb, node_a, lists[node_a as int][t as int]) == Some(em.move_type));
                                assert(is_candidate_move(*solution, nb, lists, k as int, em.move_type));
                                let ghost before = moves@;
                                moves.push(em);
                                proof {
                                    lemma_lists_push(before, em);
                                    assert forall|a: int, u: int|
                                        ((0 <= a < node_a && 0 <= u < candidate_limit(lists, a, k as int)) || (a == node_a && 0 <= u < t))
                                            implies #[trigger] candidate_listed(m, *solution, nb, moves@, a as usize, lists[a][u]) by {
                                        lemma_candidate_listed_mono(m, *solution, nb, before, moves@, a as usize, lists[a][u]);
                                    }
                                }
                            }
                        }
                    }
                }
                t += 1;
            }
            node_a += 1;
        }
        moves
    }

    /// Improving moves that name at least one of the `affected` nodes: for
    /// each of them, its exchanges with every node of the other tour, and
    /// the moves of the configured neighbourhood with every other position of
    /// its own tour (for 2-opt, both edges at the node, in both orders).
    pub fn generate_moves_around_nodes(
        &self,
        instance: &TsplibInstance,
        solution: &Solution,
        affected_nodes: &Vec<usize>,
    ) -> (r: Vec<EvaluatedMove>)
        requires
            instance.wf(),
            solution.well_formed(instance.dimension as int),
        ensures
            all_improving(r@, instance.matrix(), *solution),
            affected_nodes@.len() == 0 ==> r@.len() == 0,
            forall|j: int| 0 <= j < r@.len() ==> names_one_of(#[trigger] r@[j].move_type, affected_nodes@),
            forall|i: int|
                0 <= i < affected_nodes@.len() ==> around_complete(
                    instance.matrix(),
                    *solution,
                    self.neighborhood,
                    r@,
                    #[trigger] affected_nodes@[i],
                ),
    {
        let ghost m = instance.matrix();
        let ghost nb = self.neighborhood;
        let ghost aff = affected_nodes@;
        proof {
            crate::moves::lemma_split_distinct(solution.cycle1@, solution.cycle2@);
        }
        let mut new_moves: Vec<EvaluatedMove> = Vec::new();
        let mut i: usize = 0;
        while i < affected_nodes.len()
            invariant
                instance.wf(),
                m == instance.matrix(),
                nb == self.neighborhood,
                aff == affected_nodes@,
                solution.well_formed(instance.dimension as int),
                solution.cycle1@.no_duplicates(),
                solution.cycle2@.no_duplicates(),
                forall|x: usize| solution.cycle1@.contains(x) ==> !#[trigger] solution.cycle2@.contains(x),
                0 <= i <= aff.len(),
                all_improving(new_moves@, m, *solution),
                i == 0 ==> new_moves@.len() == 0,
                forall|j: int| 0 <= j < new_moves@.len() ==> names_one_of(#[trigger] new_moves@[j].move_type, aff),
                forall|i2: int| 0 <= i2 < i ==> around_complete(m, *solution, nb, new_moves@, #[trigger] aff[i2]),
            decreases aff.len() - i,
        {
            let node_a = affected_nodes[i];
            let ghost before = new_moves@;
            self.push_around_node(instance, solution, node_a, &mut new_moves);
            proof {
                assert(aff[i as int] == node_a);
                assert forall|i2: int| 0 <= i2 < i implies around_complete(m, *solution, nb, new_moves@, #[trigger] aff[i2]) by {
                    lemma_around_mono(m, *solution, nb, before, new_moves@, aff[i2]);
                }
                assert forall|j: int| 0 <= j < new_moves@.len() implies names_one_of(#[trigger] new_moves@[j].move_type, aff) by {
                    if j >= before.len() {
                        let e = choose|e: int| 0 <= e < endpoints(new_moves@[j].move_type).len() && endpoints(new_moves@[j].move_type)[e] == node_a;
                        assert(aff.contains(node_a));
                    }
                }
            }
            i += 1;
        }
        new_moves
    }

    /// Appends the improving moves around one node.
    fn push_around_node(
        &self,
        instance: &TsplibInstance,
        solution: &Solution,
        node_a: usize,
        moves: &mut Vec<EvaluatedMove>,
    )
        requires
            instance.wf(),
            solution.well_formed(instance.dimension as int),
            solution.cycle1@.no_duplicates(),
            solution.cycle2@.no_duplicates(),
            forall|x: usize| solution.cycle1@.contains(x) ==> !#[trigger] solution.cycle2@.contains(x),
            all_improving(old(moves)@, instance.matrix(), *solution),
        ensures
            all_improving(final(moves)@, instance.matrix(), *solution),
            final(moves)@.len() >= old(moves)@.len(),
            forall|j: int| 0 <= j < old(moves)@.len() ==> #[trigger] final(moves)@[j] == old(moves)@[j],
            forall|j: int|
                old(moves)@.len() <= j < final(moves)@.len() ==> endpoints(#[trigger] final(moves)@[j].move_type).contains(
                    node_a,
                ),
            around_complete(instance.matrix(), *solution, self.neighborhood, final(moves)@, node_a),
    {
        let ghost m = instance.matrix();
        let ghost start = moves@;
        let ghost nb = self.neighborhood;
        match solution.find_node(node_a) {
            None => {},
            Some((cycle_id_a, pos_a)) => {
                proof {
                    crate::moves::lemma_pos_of(solution.cycle_of(cycle_id_a), pos_a as int);
                }
                assert(loc_spec(*solution, node_a) == Some((cycle_id_a, pos_a as int)));
                let other = solution.get_cycle(cycle_id_a.other());
                let mut pos_b: usize = 0;
                while pos_b < other.len()
                    invariant
                        instance.wf(),
                        m == instance.matrix(),
                        solution.well_formed(instance.dimension as int),
                        all_improving(moves@, m, *solution),
                        other@ == solution.cycle_of(cycle_id_a.other_spec()),
                        solution.cycle_of(cycle_id_a)[pos_a as int] == node_a,
                        pos_a < solution.cycle_of(cycle_id_a).len(),
                        moves@.len() >= start.len(),
                        forall|j: int| 0 <= j < start.len() ==> #[trigger] moves@[j] == start[j],
                        forall|j: int| start.len() <= j < moves@.len() ==> endpoints(#[trigger] moves@[j].move_type).contains(node_a),
                        forall|p: int|
                            0 <= p < pos_b ==> inter_ok_at(m, *solution, moves@, cycle_id_a, pos_a as int, p),
                    decreases other@.len() - pos_b,
                {
                    let ghost before = moves@;
                    let found = if cycle_id_a == CycleId::Cycle1 {
                        evaluate_inter_route_exchange(solution, instance, pos_a, pos_b)
                    } else {
                        evaluate_inter_route_exchange(solution, instance, pos_b, pos_a)
                    };
                    if let Some(em) = found {
                        if em.delta < 0 {
                            moves.push(em);
                            proof {
                                lemma_lists_push(before, em);
                                assert(endpoints(em.move_type)[if cycle_id_a == CycleId::Cycle1 { 0int } else { 1int }] == node_a);
                            }
                        }
                    }
                    proof {
                        lemma_lists_grow_all(before, moves@);
                        assert forall|p: int| 0 <= p < pos_b + 1 implies inter_ok_at(m, *solution, moves@, cycle_id_a, pos_a as int, p) by {
                            if p < pos_b {
                                lemma_inter_ok_mono(m, *solution, before, moves@, cycle_id_a, pos_a as int, p);
                            }
                        }
                    }
                    pos_b += 1;
                }
                let same = solution.get_cycle(cycle_id_a);
                let n = same.len();
                let pp = crate::moves::prev_pos(pos_a, n);
                let mut q: usize = 0;
                while q < n
                    invariant
                        instance.wf(),
                        m == instance.matrix(),
                        nb == self.neighborhood,
                        solution.well_formed(instance.dimension as int),
                        all_improving(moves@, m, *solution),
                        same@ == solution.cycle_of(cycle_id_a),
                        n == same@.len(),
                        pos_a < n,
                        same@[pos_a as int] == node_a,
                        pp == crate::cost::prev_index(pos_a as int, n as int),
                        moves@.len() >= start.len(),
                        forall|j: int| 0 <= j < start.len() ==> #[trigger] moves@[j] == start[j],
                        forall|j: int| start.len() <= j < moves@.len() ==> endpoints(#[trigger] moves@[j].move_type).contains(node_a),
                        forall|p: int|
                            0 <= p < other@.len() ==> inter_ok_at(m, *solution, moves@, cycle_id_a, pos_a as int, p),
                        other@ == solution.cycle_of(cycle_id_a.other_spec()),
                        forall|x: int|
                            0 <= x < q ==> intra_ok_at(m, *solution, nb, moves@, cycle_id_a, pos_a as int, x),
                    decreases n - q,
                {
                    let ghost before = moves@;
                    self.push_intra_at(instance, solution, cycle_id_a, pos_a, pp, q, node_a, moves);
                    proof {
                        lemma_lists_grow_all(before, moves@);
                        assert forall|p: int| 0 <= p < other@.len() implies inter_ok_at(m, *solution, moves@, cycle_id_a, pos_a as int, p) by {
                            lemma_inter_ok_mono(m, *solution, before, moves@, cycle_id_a, pos_a as int, p);
                        }
                        assert forall|x: int| 0 <= x < q + 1 implies intra_ok_at(m, *solution, nb, moves@, cycle_id_a, pos_a as int, x) by {
                            if x < q {
                                lemma_intra_ok_mono(m, *solution, nb, before, moves@, cycle_id_a, pos_a as int, x);
                            }
                        }
                    }
                    q += 1;
                }
            },
        }
    }

    /// Appends the improving moves of the neighbourhood between the node at
    /// `pa` of tour `ca` and position `q` of that tour.
    fn push_intra_at(
        &self,
        instance: &TsplibInstance,
        solution: &Solution,
        ca: CycleId,
        pa: usize,
        pp: usize,
        q: usize,
        node_a: usize,
        moves: &mut Vec<EvaluatedMove>,
    )
        requires
            instance.wf(),
            solution.well_formed(instance.dimension as int),
            all_improving(old(moves)@, instance.matrix(), *solution),
            pa < solution.cycle_of(ca).len(),
            q < solution.cycle_of(ca).len(),
            solution.cycle_of(ca)[pa as int] == node_a,
            pp == crate::cost::prev_index(pa as int, solution.cycle_of(ca).len() as int),
        ensures
            all_improving(final(moves)@, instance.matrix(), *solution),
            final(moves)@.len() >= old(moves)@.len(),
            forall|j: int| 0 <= j < old(moves)@.len() ==> #[trigger] final(moves)@[j] == old(moves)@[j],
            forall|j: int|
                old(moves)@.len() <= j < final(moves)@.len() ==> endpoints(#[trigger] final(moves)@[j].move_type).contains(
                    node_a,
                ),
            intra_ok_at(instance.matrix(), *solution, self.neighborhood, final(moves)@, ca, pa as int, q as int),
    {
        let ghost m = instance.matrix();
        let ghost n = solution.cycle_of(ca).len() as int;
        let ghost start = moves@;
        match self.neighborhood {
            NeighborhoodType::VertexExchange => push_vertex_at(instance, solution, ca, pa, q, node_a, moves),
            NeighborhoodType::EdgeExchange => push_edges_at(instance, solution, ca, pa, pp, q, node_a, moves),
        }
    }

    /// The first cached move, in list order, that has a negative cached delta,
    /// is still valid, and still shortens the solution when evaluated afresh;
    /// with its position in the list and its fresh evaluation.
    fn select_from_list(
        &self,
        list: &Vec<EvaluatedMove>,
        solution: &Solution,
        instance: &TsplibInstance,
    ) -> (r: Option<(usize, EvaluatedMove)>)
        requires
            instance.wf(),
            solution.well_formed(instance.dimension as int),
        ensures
            r matches Some((idx, em)) ==> idx < list@.len() && em.delta < 0 && delta_is_exact(
                em,
                instance.matrix(),
                *solution,
            ),
    {
        let mut idx: usize = 0;
        while idx < list.len()
            invariant
                instance.wf(),
                solution.well_formed(instance.dimension as int),
            decreases list@.len() - idx,
        {
            let cached = list[idx];
            if cached.delta < 0 && self.is_move_valid(solution, &cached.move_type) {
                if let Some(fresh) = evaluate_move(solution, instance, cached.move_type) {
                    if fresh.delta < 0 {
                        return Some((idx, fresh));
                    }
                }
            }
            idx += 1;
        }
        None
    }

    /// Refreshes the cached list after `applied` was applied: drops the moves
    /// that name an affected node and adds the improving moves around them.
    fn update_move_list(
        &self,
        list: &mut Vec<EvaluatedMove>,
        applied: &Move,
        solution: &Solution,
        instance: &TsplibInstance,
    )
        requires
            instance.wf(),
            solution.well_formed(instance.dimension as int),
            sorted_by_delta(old(list)@),
            unique_moves(old(list)@),
        ensures
            sorted_by_delta(final(list)@),
            unique_moves(final(list)@),
            forall|k: int|
                0 <= k < old(list)@.len() && !names_affected(*solution, *applied, #[trigger] old(list)@[k].move_type)
                    ==> lists_move(final(list)@, old(list)@[k].move_type),
            forall|k: int|
                0 <= k < final(list)@.len() ==> !names_affected(*solution, *applied, (#[trigger] final(list)@[k]).move_type)
                    ==> old(list)@.contains(final(list)@[k]),
            forall|x: usize|
                is_affected(*solution, *applied, x) ==> #[trigger] around_complete(
                    instance.matrix(),
                    *solution,
                    self.neighborhood,
                    final(list)@,
                    x,
                ),
    {
        let ghost l0 = list@;
        let ghost m = instance.matrix();
        let affected = self.identify_affected_nodes(applied, solution);
        let mut kept: Vec<EvaluatedMove> = Vec::new();
        let ghost mut src: Seq<int> = Seq::empty();
        let mut i: usize = 0;
        while i < list.len()
            invariant
                list@ == l0,
                sorted_by_delta(l0),
                unique_moves(l0),
                0 <= i <= l0.len(),
                forall|x: usize| #[trigger] affected@.contains(x) <==> is_affected(*solution, *applied, x),
                src.len() == kept@.len(),
                forall|a: int| 0 <= a < src.len() ==> 0 <= #[trigger] src[a] < i && kept@[a] == l0[src[a]],
                forall|a: int, b: int| 0 <= a < b < src.len() ==> #[trigger] src[a] < #[trigger] src[b],
                forall|t: int|
                    0 <= t < i && !names_affected(*solution, *applied, #[trigger] l0[t].move_type) ==> lists_move(
                        kept@,
                        l0[t].move_type,
                    ),
                forall|a: int| 0 <= a < kept@.len() ==> !names_affected(*solution, *applied, (#[trigger] kept@[a]).move_type),
            decreases l0.len() - i,
        {
            let em = list[i];
            let involves = self.move_involves_nodes(&em.move_type, &affected);
            assert(involves == names_affected(*solution, *applied, em.move_type)) by {
                if involves {
                    let e = choose|e: int| 0 <= e < endpoints(em.move_type).len() && affected@.contains(#[trigger] endpoints(em.move_type)[e]);
                }
                if names_affected(*solution, *applied, em.move_type) {
                    let e = choose|e: int| 0 <= e < endpoints(em.move_type).len() && is_affected(*solution, *applied, #[trigger] endpoints(em.move_type)[e]);
                    assert(affected@.contains(endpoints(em.move_type)[e]));
                }
            }
            if !involves {
                proof {
                    lemma_lists_push(kept@, em);
                    src = src.push(i as int);
                }
                kept.push(em);
            }
            i += 1;
        }
        proof {
            assert forall|a: int, b: int| 0 <= a < b < kept@.len() implies (#[trigger] kept@[a]).delta <= (#[trigger] kept@[b]).delta by {
                assert(src[a] < src[b]);
            }
            assert forall|a: int, b: int| 0 <= a < kept@.len() && 0 <= b < kept@.len() && a != b implies (#[trigger] kept@[a]).move_type
                != (#[trigger] kept@[b]).move_type by {
                if a < b {
                    assert(src[a] < src[b]);
                } else {
                    assert(src[b] < src[a]);
                }
            }
        }
        let ghost k0 = kept@;
        let fresh = self.generate_moves_around_nodes(instance, solution, &affected);
        let mut j: usize = 0;
        while j < fresh.len()
            invariant
                sorted_by_delta(kept@),
                unique_moves(kept@),
                0 <= j <= fresh@.len(),
                forall|mv: Move| lists_move(k0, mv) ==> #[trigger] lists_move(kept@, mv),
                forall|t: int| 0 <= t < j ==> lists_move(kept@, (#[trigger] fresh@[t]).move_type),
                forall|a: int| 0 <= a < kept@.len() ==> k0.contains(#[trigger] kept@[a]) || exists|t: int| 0 <= t < j && fresh@[t] == kept@[a],
            decreases fresh@.len() - j,
        {
            let ghost before = kept@;
            insert_sorted(&mut kept, fresh[j]);
            proof {
                assert forall|a: int| 0 <= a < kept@.len() implies k0.contains(#[trigger] kept@[a]) || exists|t: int| 0 <= t < j + 1 && fresh@[t] == kept@[a] by {
                    if kept@[a] == fresh@[j as int] {
                    } else {
                        let q = choose|q: int| 0 <= q < before.len() && before[q] == kept@[a];
                        assert(k0.contains(before[q]) || exists|t: int| 0 <= t < j && fresh@[t] == before[q]);
                    }
                }
            }
            j += 1;
        }
        proof {
            assert forall|mv: Move| lists_move(fresh@, mv) implies #[trigger] lists_move(kept@, mv) by {
                let q = choose|q: int| 0 <= q < fresh@.len() && #[trigger] fresh@[q].move_type == mv;
            }
            assert forall|x: usize| is_affected(*solution, *applied, x) implies #[trigger] around_complete(m, *solution, self.neighborhood, kept@, x) by {
                assert(affected@.contains(x));
                let q = choose|q: int| 0 <= q < affected@.len() && affected@[q] == x;
                lemma_around_sup(m, *solution, self.neighborhood, fresh@, kept@, x);
            }
            assert forall|k: int| 0 <= k < kept@.len() && !names_affected(*solution, *applied, (#[trigger] kept@[k]).move_type) implies l0.contains(kept@[k]) by {
                if k0.contains(kept@[k]) {
                    let a = choose|a: int| 0 <= a < k0.len() && k0[a] == kept@[k];
                    assert(l0[src[a]] == kept@[k]);
                } else {
                    let t = choose|t: int| 0 <= t < fresh@.len() && fresh@[t] == kept@[k];
                    assert(names_one_of(fresh@[t].move_type, affected@));
                    let e = choose|e: int| 0 <= e < endpoints(fresh@[t].move_type).len() && affected@.contains(#[trigger] endpoints(fresh@[t].move_type)[e]);
                    assert(is_affected(*solution, *applied, endpoints(fresh@[t].move_type)[e]));
                }
            }
        }
        *list = kept;
    }

    /// Improves `start` until no chosen move shortens it. Each step applies
    /// one move of negative delta, chosen by the configured variant. Every
    /// variant but the candidate-list one stops only at a local optimum of
    /// the configured neighbourhood; the candidate-list one stops where no
    /// move between a node and its listed neighbours shortens the solution.
    pub fn improve(&self, instance: &TsplibInstance, start: Solution, rng: &mut StdRng) -> (r: Solution)
        requires
            instance.wf(),
            start.well_formed(instance.dimension as int),
        ensures
            r.well_formed(instance.dimension as int),
            r.cycle1@.len() == start.cycle1@.len(),
            r.cycle2@.len() == start.cycle2@.len(),
            r.total_cost(instance.matrix()) <= start.total_cost(instance.matrix()),
            !(self.variant is CandidateSteepest) ==> is_local_optimum(instance.matrix(), r, self.neighborhood),
            self.variant matches SearchVariant::CandidateSteepest(k) ==> is_candidate_optimum(
                instance.matrix(),
                r,
                self.neighborhood,
                instance.neighbor_lists(),
                k as int,
            ),
            self.improves_to(instance, start, r),
    {
        let ghost m = instance.matrix();
        let ghost n = instance.dimension as int;
        let mut current = start;
        let mut current_cost = current.calculate_cost(instance);
        proof {
            current.lemma_cost_bounds(m);
        }
        let mut move_list: Vec<EvaluatedMove> = Vec::new();
        if self.variant == SearchVariant::MoveListSteepest {
            let all = generate_all_improving_moves(self.neighborhood, instance, &current);
            let mut i: usize = 0;
            while i < all.len()
                invariant
                    sorted_by_delta(move_list@),
                    unique_moves(move_list@),
                decreases all@.len() - i,
            {
                insert_sorted(&mut move_list, all[i]);
                i += 1;
            }
        }
        loop
            invariant
                instance.wf(),
                m == instance.matrix(),
                n == instance.dimension,
                current.well_formed(n),
                current.cycle1@.len() == start.cycle1@.len(),
                current.cycle2@.len() == start.cycle2@.len(),
                current_cost == current.total_cost(m),
                0 <= current_cost,
                current.total_cost(m) <= start.total_cost(m),
                sorted_by_delta(move_list@),
                unique_moves(move_list@),
            decreases current_cost,
        {
            let chosen: Option<EvaluatedMove> = match self.variant {
                SearchVariant::Steepest => {
                    let all = generate_all_improving_moves(self.neighborhood, instance, &current);
                    if all.len() == 0 {
                        return current;
                    }
                    best_move(&all)
                },
                SearchVariant::Greedy => {
                    let all = generate_all_improving_moves(self.neighborhood, instance, &current);
                    if all.len() == 0 {
                        return current;
                    }
                    let pick = random_below(rng, all.len());
                    Some(all[pick])
                },
                SearchVariant::CandidateSteepest(k) => {
                    let cands = self.generate_candidate_moves(instance, &current, k);
                    if cands.len() == 0 {
                        return current;
                    }
                    best_move(&cands)
                },
                SearchVariant::MoveListSteepest => {
                    match self.select_from_list(&move_list, &current, instance) {
                        Some((idx, em)) => {
                            proof {
                                lemma_remove_keeps(move_list@, idx as int);
                            }
                            move_list.remove(idx);
                            Some(em)
                        },
                        None => {
                            let all = generate_all_improving_moves(self.neighborhood, instance, &current);
                            if all.len() == 0 {
                                return current;
                            }
                            let mut refill: Vec<EvaluatedMove> = Vec::new();
                            let mut i: usize = 0;
                            while i < all.len()
                                invariant
                                    sorted_by_delta(refill@),
                                    unique_moves(refill@),
                                decreases all@.len() - i,
                            {
                                insert_sorted(&mut refill, all[i]);
                                i += 1;
                            }
                            move_list = refill;
                            best_move(&all)
                        },
                    }
                },
            };
            let em = match chosen {
                Some(em) => em,
                None => {
                    return current;
                },
            };
            let ghost before = current;
            proof {
                crate::moves::lemma_apply_preserves(current.cycle1@, current.cycle2@, em.move_type, n);
            }
            em.move_type.apply(&mut current);
            proof {
                current.lemma_cost_bounds(m);
            }
            current_cost = current_cost + em.delta;
            if self.variant == SearchVariant::MoveListSteepest {
                self.update_move_list(&mut move_list, &em.move_type, &current, instance);
            }
        }
    }
}

impl LocalSearch {
    /// `r` is what this search may end at from `start`: as long, no longer,
    /// and a local optimum of the configured kind.
    pub open spec fn improves_to(&self, instance: &TsplibInstance, start: Solution, r: Solution) -> bool {
        let m = instance.matrix();
        &&& r.well_formed(instance.dimension as int)
        &&& r.cycle1@.len() == start.cycle1@.len()
        &&& r.cycle2@.len() == start.cycle2@.len()
        &&& r.total_cost(m) <= start.total_cost(m)
        &&& !(self.variant is CandidateSteepest) ==> is_local_optimum(m, r, self.neighborhood)
        &&& self.variant matches SearchVariant::CandidateSteepest(k) ==> is_candidate_optimum(
            m,
            r,
            self.neighborhood,
            instance.neighbor_lists(),
            k as int,
        )
    }

    /// `r` is a valid solution at which this search may stop.
    pub open spec fn is_search_result(&self, instance: &TsplibInstance, r: Solution) -> bool {
        let m = instance.matrix();
        &&& r.is_valid_for(instance.dimension as int)
        &&& !(self.variant is CandidateSteepest) ==> is_local_optimum(m, r, self.neighborhood)
        &&& self.variant matches SearchVariant::CandidateSteepest(k) ==> is_candidate_optimum(
            m,
            r,
            self.neighborhood,
            instance.neighbor_lists(),
            k as int,
        )
    }

    pub fn new(
        variant: SearchVariant,
        neighborhood: NeighborhoodType,
        initial_solution_type: InitialSolutionType,
    ) -> (r: Self)
        ensures
            r.variant == variant,
            r.neighborhood == neighborhood,
            r.initial_solution_type == initial_solution_type,
            r.name_str@ == crate::labels::search_name(variant, neighborhood, initial_solution_type),
    {
        let name_str = crate::labels::search_label(variant, neighborhood, initial_solution_type);
        LocalSearch { variant, neighborhood, initial_solution_type, name_str }
    }

    pub fn name(&self) -> (r: &str)
        ensures
            r@ == self.name_str@,
    {
        self.name_str.as_str()
    }

    /// A copy of the configuration.
    pub fn duplicate(&self) -> (r: Self)
        ensures
            r.variant == self.variant,
            r.neighborhood == self.neighborhood,
            r.initial_solution_type == self.initial_solution_type,
    {
        LocalSearch::new(self.variant, self.neighborhood, self.initial_solution_type)
    }

    /// The configured start: a random solution, or the weighted 2-regret
    /// construction with its default weights.
    pub fn generate_initial_solution(&self, instance: &TsplibInstance, rng: &mut StdRng) -> (r: Solution)
        requires
            instance.wf(),
        ensures
            r.is_valid_for(instance.dimension as int),
    {
        match self.initial_solution_type {
            InitialSolutionType::Random => crate::utils::generate_random_solution(instance, rng),
            InitialSolutionType::Heuristic(HeuristicAlgorithm::WeightedRegret) => {
                crate::construct::WeightedRegretCycle::default().solve(instance)
            },
        }
    }

    /// Local search from the configured start.
    pub fn solve(&self, instance: &TsplibInstance, rng: &mut StdRng) -> (r: Solution)
        requires
            instance.wf(),
        ensures
            r.is_valid_for(instance.dimension as int),
            !(self.variant is CandidateSteepest) ==> is_local_optimum(instance.matrix(), r, self.neighborhood),
            self.variant matches SearchVariant::CandidateSteepest(k) ==> is_candidate_optimum(
                instance.matrix(),
                r,
                self.neighborhood,
                instance.neighbor_lists(),
                k as int,
            ),
            self.is_search_result(instance, r),
    {
        let start = self.generate_initial_solution(instance, rng);
        self.improve(instance, start, rng)
    }
}

} // verus!
