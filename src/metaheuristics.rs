//! Metaheuristics over the local search: multi-start local search, iterated
//! local search, large-neighbourhood search and a hybrid evolutionary
//! algorithm. The time-bounded ones are written as single steps; the caller
//! repeats a step while its time budget lasts.

use vstd::prelude::*;
use rand::rngs::StdRng;
use crate::local_search::LocalSearch;
use crate::perturbation::{recombine, LargePerturbation, SmallPerturbation};
use crate::cost::nodes_below;
use crate::random::random_below;
use crate::tsplib::{Solution, TsplibInstance};

verus! {

/// `cost` is the total length of `sol`, which is a valid solution.
pub open spec fn is_scored(instance: &TsplibInstance, sol: Solution, cost: i32) -> bool {
    &&& sol.is_valid_for(instance.dimension as int)
    &&& cost == sol.total_cost(instance.matrix())
}

/// Multi-start local search: the best of several local searches from
/// independent starts.
pub struct Msls {
    pub base_local_search: LocalSearch,
    pub iterations: usize,
    pub name_str: String,
}

impl Msls {
    pub fn new(base_local_search: LocalSearch, iterations: usize) -> (r: Self)
        ensures
            r.iterations == iterations,
            r.name_str@ == crate::labels::msls_name(base_local_search.name_str@, iterations as int),
            r.base_local_search.variant == base_local_search.variant,
            r.base_local_search.neighborhood == base_local_search.neighborhood,
            r.base_local_search.initial_solution_type == base_local_search.initial_solution_type,
    {
        let name_str = crate::labels::msls_label(base_local_search.name(), iterations);
        Msls { base_local_search, iterations, name_str }
    }

    pub fn name(&self) -> (r: &str)
        ensures
            r@ == self.name_str@,
    {
        self.name_str.as_str()
    }

    /// `runs` are the results of the base search, `costs` their costs, and
    /// `best` the first of them of least cost.
    pub open spec fn is_msls_outcome(&self, instance: &TsplibInstance, runs: Seq<Solution>, costs: Seq<i32>, best: Solution) -> bool {
        &&& runs.len() == self.iterations
        &&& costs.len() == self.iterations
        &&& forall|i: int| 0 <= i < runs.len() ==> is_scored(instance, #[trigger] runs[i], costs[i])
        &&& forall|i: int| 0 <= i < runs.len() ==> self.base_local_search.is_search_result(instance, #[trigger] runs[i])
        &&& exists|j: int|
            0 <= j < runs.len() && #[trigger] runs[j] == best && (forall|i: int| 0 <= i < j ==> costs[j] < #[trigger] costs[i]) && (
            forall|i: int| 0 <= i < costs.len() ==> costs[j] <= #[trigger] costs[i])
    }

    /// Runs the base local search `iterations` times; returns the first run
    /// of least cost, and the cost of every run in order.
    pub fn run(&self, instance: &TsplibInstance, rng: &mut StdRng) -> (r: (Solution, Vec<i32>))
        requires
            instance.wf(),
            self.iterations > 0,
        ensures
            r.0.is_valid_for(instance.dimension as int),
            r.1@.len() == self.iterations,
            forall|k: int| 0 <= k < r.1@.len() ==> r.0.total_cost(instance.matrix()) <= #[trigger] r.1@[k],
            exists|k: int| 0 <= k < r.1@.len() && r.0.total_cost(instance.matrix()) == r.1@[k],
            self.base_local_search.is_search_result(instance, r.0),
            exists|runs: Seq<Solution>| #[trigger] self.is_msls_outcome(instance, runs, r.1@, r.0),
    {
        let mut costs: Vec<i32> = Vec::new();
        let mut best = self.base_local_search.solve(instance, rng);
        let mut best_cost = best.calculate_cost(instance);
        costs.push(best_cost);
        let ghost mut runs: Seq<Solution> = seq![best];
        let ghost mut best_k: int = 0;
        let mut i: usize = 1;
        while i < self.iterations
            invariant
                instance.wf(),
                1 <= i <= self.iterations,
                costs@.len() == i,
                runs.len() == i,
                is_scored(instance, best, best_cost),
                self.base_local_search.is_search_result(instance, best),
                forall|k: int| 0 <= k < runs.len() ==> is_scored(instance, #[trigger] runs[k], costs@[k]),
                forall|k: int| 0 <= k < runs.len() ==> self.base_local_search.is_search_result(instance, #[trigger] runs[k]),
                forall|k: int| 0 <= k < costs@.len() ==> best_cost <= #[trigger] costs@[k],
                0 <= best_k < costs@.len(),
                costs@[best_k] == best_cost,
                runs[best_k] == best,
                forall|k: int| 0 <= k < best_k ==> best_cost < #[trigger] costs@[k],
            decreases self.iterations - i,
        {
            let current = self.base_local_search.solve(instance, rng);
            let current_cost = current.calculate_cost(instance);
            costs.push(current_cost);
            proof {
                runs = runs.push(current);
            }
            if current_cost < best_cost {
                best = current;
                best_cost = current_cost;
                proof {
                    best_k = i as int;
                }
            }
            i += 1;
        }
        assert(costs@[best_k] == best_cost);
        assert(self.is_msls_outcome(instance, runs, costs@, best));
        (best, costs)
    }

    /// The best local optimum of `iterations` runs.
    pub fn solve(&self, instance: &TsplibInstance, rng: &mut StdRng) -> (r: Solution)
        requires
            instance.wf(),
            self.iterations > 0,
        ensures
            r.is_valid_for(instance.dimension as int),
            self.base_local_search.is_search_result(instance, r),
            exists|runs: Seq<Solution>, costs: Seq<i32>| #[trigger] self.is_msls_outcome(instance, runs, costs, r),
    {
        let (best, costs) = self.run(instance, rng);
        best
    }
}

/// Keeps the shorter of the best solution and a candidate: the candidate
/// replaces the best only when its cost is strictly lower.
pub fn keep_better(best: &mut Solution, best_cost: &mut i32, candidate: Solution, cost: i32)
    ensures
        cost < *old(best_cost) ==> final(best).cycle1@ == candidate.cycle1@ && final(best).cycle2@
            == candidate.cycle2@ && *final(best_cost) == cost,
        cost >= *old(best_cost) ==> final(best).cycle1@ == old(best).cycle1@ && final(best).cycle2@
            == old(best).cycle2@ && *final(best_cost) == *old(best_cost),
{
    if cost < *best_cost {
        *best = candidate;
        *best_cost = cost;
    }
}

/// Iterated local search: perturb the best solution with a few random moves,
/// improve it, and keep it when it is shorter.
pub struct Ils {
    pub base_local_search: LocalSearch,
    pub perturbation: SmallPerturbation,
}

/// The keep-better rule: `new_best` is the candidate when its cost is below
/// the best cost, and the best solution otherwise.
pub open spec fn kept_better(
    best: Solution,
    best_cost: i32,
    cand: Solution,
    cost: int,
    new_best: Solution,
    new_cost: i32,
) -> bool {
    &&& cost < best_cost ==> new_best.cycle1@ == cand.cycle1@ && new_best.cycle2@ == cand.cycle2@ && new_cost == cost
    &&& cost >= best_cost ==> new_best.cycle1@ == best.cycle1@ && new_best.cycle2@ == best.cycle2@ && new_cost
        == best_cost
}

impl Ils {
    pub fn new(base_local_search: LocalSearch, perturbation: SmallPerturbation) -> (r: Self)
        ensures
            r.perturbation == perturbation,
            r.base_local_search == base_local_search,
    {
        Ils { base_local_search, perturbation }
    }

    /// One iteration as it is stated: `p` is the best solution after the
    /// perturbation's draws, `c` the local search result from `p`, and the
    /// keep-better rule decides between `c` and the best solution.
    pub open spec fn is_ils_step(
        &self,
        instance: &TsplibInstance,
        best: Solution,
        best_cost: i32,
        p: Solution,
        c: Solution,
        new_best: Solution,
        new_cost: i32,
    ) -> bool {
        &&& exists|chain: Seq<Solution>|
            #[trigger] crate::perturbation::is_draw_chain(
                self.base_local_search.neighborhood,
                chain,
                self.perturbation.num_moves as int,
                best,
                p,
            )
        &&& p.is_valid_for(instance.dimension as int)
        &&& self.base_local_search.improves_to(instance, p, c)
        &&& kept_better(best, best_cost, c, c.total_cost(instance.matrix()), new_best, new_cost)
    }

    /// The first solution: a local search from the configured start.
    pub fn start(&self, instance: &TsplibInstance, rng: &mut StdRng) -> (r: (Solution, i32))
        requires
            instance.wf(),
        ensures
            is_scored(instance, r.0, r.1),
            self.base_local_search.is_search_result(instance, r.0),
    {
        let s = self.base_local_search.solve(instance, rng);
        let c = s.calculate_cost(instance);
        (s, c)
    }

    /// One iteration: the best solution is replaced only by a shorter one.
    pub fn step(&self, instance: &TsplibInstance, best: &mut Solution, best_cost: &mut i32, rng: &mut StdRng)
        requires
            instance.wf(),
            is_scored(instance, *old(best), *old(best_cost)),
        ensures
            is_scored(instance, *final(best), *final(best_cost)),
            *final(best_cost) <= *old(best_cost),
            exists|p: Solution, c: Solution|
                #[trigger] self.is_ils_step(instance, *old(best), *old(best_cost), p, c, *final(best), *final(best_cost)),
    {
        let ghost b0 = *best;
        let ghost c0 = *best_cost;
        let mut candidate = best.duplicate();
        let ghost d = candidate;
        self.perturbation.perturb(&mut candidate, instance, self.base_local_search.neighborhood, rng);
        let ghost p = candidate;
        proof {
            let chain = choose|chain: Seq<Solution>|
                #[trigger] crate::perturbation::is_draw_chain(
                    self.base_local_search.neighborhood,
                    chain,
                    self.perturbation.num_moves as int,
                    d,
                    p,
                );
            assert(crate::perturbation::is_draw_chain(
                self.base_local_search.neighborhood,
                chain,
                self.perturbation.num_moves as int,
                b0,
                p,
            ));
        }
        let candidate = self.base_local_search.improve(instance, candidate, rng);
        let ghost c = candidate;
        let cost = candidate.calculate_cost(instance);
        keep_better(best, best_cost, candidate, cost);
        assert(self.is_ils_step(instance, b0, c0, p, c, *best, *best_cost));
    }
}

/// Large-neighbourhood search: destroy and repair the best solution,
/// optionally improve the result, and keep it when it is shorter.
pub struct Lns {
    pub base_local_search: LocalSearch,
    pub perturbation: LargePerturbation,
    pub apply_ls_after_repair: bool,
    pub apply_ls_to_initial: bool,
}

impl Lns {
    pub fn new(
        base_local_search: LocalSearch,
        perturbation: LargePerturbation,
        apply_ls_after_repair: bool,
        apply_ls_to_initial: bool,
    ) -> (r: Self)
        ensures
            r.perturbation == perturbation,
            r.base_local_search == base_local_search,
            r.apply_ls_after_repair == apply_ls_after_repair,
            r.apply_ls_to_initial == apply_ls_to_initial,
    {
        Lns { base_local_search, perturbation, apply_ls_after_repair, apply_ls_to_initial }
    }

    /// One iteration as it is stated: `c0` is the best solution destroyed
    /// and repaired, `c` the local search result from `c0` when so
    /// configured (else `c0`), and the keep-better rule decides.
    pub open spec fn is_lns_step(
        &self,
        instance: &TsplibInstance,
        best: Solution,
        best_cost: i32,
        c0: Solution,
        c: Solution,
        new_best: Solution,
        new_cost: i32,
    ) -> bool {
        &&& self.perturbation.perturbs_to(instance, best, c0)
        &&& c0.is_valid_for(instance.dimension as int)
        &&& self.apply_ls_after_repair ==> self.base_local_search.improves_to(instance, c0, c)
        &&& !self.apply_ls_after_repair ==> c == c0
        &&& kept_better(best, best_cost, c, c.total_cost(instance.matrix()), new_best, new_cost)
    }

    /// The first solution: random, improved by local search when so
    /// configured.
    pub fn start(&self, instance: &TsplibInstance, rng: &mut StdRng) -> (r: (Solution, i32))
        requires
            instance.wf(),
        ensures
            is_scored(instance, r.0, r.1),
            exists|s0: Solution|
                #[trigger] s0.is_valid_for(instance.dimension as int) && (self.apply_ls_to_initial
                    ==> self.base_local_search.improves_to(instance, s0, r.0)) && (!self.apply_ls_to_initial ==> r.0
                    == s0),
    {
        let s = crate::utils::generate_random_solution(instance, rng);
        let ghost s0 = s;
        let s = if self.apply_ls_to_initial {
            self.base_local_search.improve(instance, s, rng)
        } else {
            s
        };
        assert(s0.is_valid_for(instance.dimension as int));
        let c = s.calculate_cost(instance);
        (s, c)
    }

    /// One iteration: the best solution is replaced only by a shorter one.
    pub fn step(&self, instance: &TsplibInstance, best: &mut Solution, best_cost: &mut i32, rng: &mut StdRng)
        requires
            instance.wf(),
            is_scored(instance, *old(best), *old(best_cost)),
        ensures
            is_scored(instance, *final(best), *final(best_cost)),
            *final(best_cost) <= *old(best_cost),
            exists|c0: Solution, c: Solution|
                #[trigger] self.is_lns_step(instance, *old(best), *old(best_cost), c0, c, *final(best), *final(best_cost)),
    {
        let ghost b0 = *best;
        let ghost k0 = *best_cost;
        let mut candidate = best.duplicate();
        let ghost d = candidate;
        self.perturbation.perturb(&mut candidate, instance, rng);
        let ghost g0 = candidate;
        proof {
            let order = choose|order: Seq<usize>|
                order.len() == instance.dimension && order.no_duplicates() && nodes_below(order, instance.dimension as int)
                    && #[trigger] crate::perturbation::destroyed_and_repaired(
                    instance,
                    d,
                    crate::perturbation::first_marks(
                        order,
                        crate::perturbation::destroy_count_spec(self.perturbation.destroy_percent as int, instance.dimension as int),
                        instance.dimension as int,
                    ),
                    g0,
                );
            assert(crate::perturbation::destroyed_and_repaired(
                instance,
                b0,
                crate::perturbation::first_marks(
                    order,
                    crate::perturbation::destroy_count_spec(self.perturbation.destroy_percent as int, instance.dimension as int),
                    instance.dimension as int,
                ),
                g0,
            ));
        }
        let candidate = if self.apply_ls_after_repair {
            self.base_local_search.improve(instance, candidate, rng)
        } else {
            candidate
        };
        let ghost g = candidate;
        let cost = candidate.calculate_cost(instance);
        keep_better(best, best_cost, candidate, cost);
        assert(self.is_lns_step(instance, b0, k0, g0, g, *best, *best_cost));
    }
}

/// A member of the evolutionary population, with its cached length.
pub struct PopulationMember {
    pub solution: Solution,
    pub cost: i32,
}

/// Index of the first member of greatest cost.
pub open spec fn is_worst_index(costs: Seq<i32>, w: int) -> bool {
    &&& 0 <= w < costs.len()
    &&& forall|k: int| 0 <= k < costs.len() ==> #[trigger] costs[k] <= costs[w]
    &&& forall|k: int| 0 <= k < w ==> #[trigger] costs[k] < costs[w]
}

/// Some member's cost lies within `min_diff` of `c`.
pub open spec fn too_similar(costs: Seq<i32>, c: int, min_diff: int) -> bool {
    exists|k: int| 0 <= k < costs.len() && -min_diff < c - #[trigger] costs[k] < min_diff
}

/// The first member of greatest cost.
pub open spec fn worst_spec(costs: Seq<i32>) -> int {
    choose|w: int| is_worst_index(costs, w)
}

/// The member a child of cost `c` replaces, if any, when the best cost is `b`.
pub open spec fn replacement_spec(costs: Seq<i32>, c: int, b: int, min_diff: int) -> Option<int> {
    if c < b || (c < costs[worst_spec(costs)] && !too_similar(costs, c, min_diff)) {
        Some(worst_spec(costs))
    } else {
        None
    }
}

/// The costs of the members.
pub open spec fn pop_costs(pop: Seq<PopulationMember>) -> Seq<i32> {
    Seq::new(pop.len(), |i: int| pop[i].cost)
}

/// Index of the first member of greatest cost.
pub fn worst_index(costs: &Vec<i32>) -> (r: usize)
    requires
        costs@.len() > 0,
    ensures
        is_worst_index(costs@, r as int),
{
    let mut w: usize = 0;
    let mut i: usize = 1;
    while i < costs.len()
        invariant
            costs@.len() > 0,
            w < i <= costs@.len(),
            forall|k: int| 0 <= k < i ==> #[trigger] costs@[k] <= costs@[w as int],
            forall|k: int| 0 <= k < w ==> #[trigger] costs@[k] < costs@[w as int],
        decreases costs@.len() - i,
    {
        if costs[i] > costs[w] {
            w = i;
        }
        i += 1;
    }
    w
}

/// The replacement rule of the evolutionary algorithm: a child shorter than
/// the best solution replaces the worst member; otherwise a child shorter
/// than the worst member replaces it unless some member's cost lies within
/// `min_diff` of the child's; otherwise the child is discarded. Returns the
/// index of the member to replace.
pub fn replacement_index(costs: &Vec<i32>, child_cost: i32, best_cost: i32, min_diff: i32) -> (r: Option<usize>)
    requires
        costs@.len() > 0,
    ensures
        (r is Some <==> replacement_spec(costs@, child_cost as int, best_cost as int, min_diff as int) is Some),
        r matches Some(i) ==> replacement_spec(costs@, child_cost as int, best_cost as int, min_diff as int) == Some(
            i as int,
        ),
        ({
            let w = choose|w: int| is_worst_index(costs@, w);
            &&& r is Some <==> (child_cost < best_cost || (child_cost < costs@[w] && !too_similar(
                costs@,
                child_cost as int,
                min_diff as int,
            )))
            &&& r matches Some(i) ==> is_worst_index(costs@, i as int)
        }),
{
    let w = worst_index(costs);
    proof {
        let w2 = choose|w: int| is_worst_index(costs@, w);
        assert(is_worst_index(costs@, w as int));
        if w2 < w {
            assert(costs@[w2] < costs@[w as int]);
        } else if w2 > w {
            assert(costs@[w as int] < costs@[w2]);
        }
    }
    if child_cost < best_cost {
        return Some(w);
    }
    let mut similar = false;
    let mut i: usize = 0;
    while i < costs.len()
        invariant
            0 <= i <= costs@.len(),
            similar == exists|k: int| 0 <= k < i && -min_diff < child_cost - #[trigger] costs@[k] < min_diff,
        decreases costs@.len() - i,
    {
        let d = child_cost as i64 - costs[i] as i64;
        if -(min_diff as i64) < d && d < min_diff as i64 {
            similar = true;
        }
        i += 1;
    }
    if child_cost < costs[w] && !similar {
        Some(w)
    } else {
        None
    }
}

/// Hybrid evolutionary algorithm: a population of local optima evolved by
/// recombination, optional local search, and a replacement rule that keeps
/// the population diverse.
pub struct Hae {
    pub base_local_search: LocalSearch,
    pub pop_size: usize,
    pub min_diff: i32,
    pub with_local: bool,
    pub name_str: String,
}

impl Hae {
    pub fn new(base_local_search: LocalSearch, pop_size: usize, min_diff: i32, with_local: bool) -> (r: Self)
        ensures
            r.pop_size == pop_size,
            r.min_diff == min_diff,
            r.with_local == with_local,
            r.name_str@ == crate::labels::hae_name(with_local, base_local_search.name_str@, pop_size as int, min_diff as int),
            r.base_local_search.variant == base_local_search.variant,
            r.base_local_search.neighborhood == base_local_search.neighborhood,
            r.base_local_search.initial_solution_type == base_local_search.initial_solution_type,
    {
        let name_str = crate::labels::hae_label(with_local, base_local_search.name(), pop_size, min_diff);
        Hae { base_local_search, pop_size, min_diff, with_local, name_str }
    }

    pub fn name(&self) -> (r: &str)
        ensures
            r@ == self.name_str@,
    {
        self.name_str.as_str()
    }

    /// `pop_size` local optima from independent starts, with the index of the
    /// first shortest of them.
    pub fn init_population(&self, instance: &TsplibInstance, rng: &mut StdRng) -> (r: (Vec<PopulationMember>, usize))
        requires
            instance.wf(),
            self.pop_size > 0,
        ensures
            r.0@.len() == self.pop_size,
            forall|k: int| 0 <= k < r.0@.len() ==> is_scored(instance, #[trigger] r.0@[k].solution, r.0@[k].cost),
            r.1 < r.0@.len(),
            forall|k: int| 0 <= k < r.0@.len() ==> r.0@[r.1 as int].cost <= #[trigger] r.0@[k].cost,
    {
        let mut pop: Vec<PopulationMember> = Vec::new();
        let mut best: usize = 0;
        let mut i: usize = 0;
        while i < self.pop_size
            invariant
                instance.wf(),
                pop@.len() == i,
                i <= self.pop_size,
                forall|k: int| 0 <= k < pop@.len() ==> is_scored(instance, #[trigger] pop@[k].solution, pop@[k].cost),
                i > 0 ==> best < i,
                i == 0 ==> best == 0,
                i > 0 ==> forall|k: int| 0 <= k < pop@.len() ==> pop@[best as int].cost <= #[trigger] pop@[k].cost,
            decreases self.pop_size - i,
        {
            let sol = self.base_local_search.solve(instance, rng);
            let cost = sol.calculate_cost(instance);
            let ghost before = pop@;
            let ghost old_best = best;
            if i > 0 && cost < pop[best].cost {
                best = i;
            }
            pop.push(PopulationMember { solution: sol, cost });
            assert(pop@[i as int].cost == cost);
            assert forall|k: int| 0 <= k < pop@.len() implies pop@[best as int].cost <= #[trigger] pop@[k].cost by {
                if k < i {
                    assert(pop@[k] == before[k]);
                    if best != i {
                        assert(pop@[best as int] == before[best as int]);
                    } else {
                        assert(before[old_best as int].cost <= before[k].cost);
                    }
                } else if i > 0 && best != i {
                    assert(pop@[best as int] == before[best as int]);
                }
            }
            i += 1;
        }
        (pop, best)
    }

    /// One generation: two distinct parents drawn uniformly, their child
    /// (improved by local search when so configured), and the replacement
    /// rule applied to it.
    pub fn step(
        &self,
        instance: &TsplibInstance,
        pop: &mut Vec<PopulationMember>,
        best: &mut Solution,
        best_cost: &mut i32,
        rng: &mut StdRng,
    )
        requires
            instance.wf(),
            old(pop)@.len() >= 2,
            forall|k: int| 0 <= k < old(pop)@.len() ==> is_scored(instance, #[trigger] old(pop)@[k].solution, old(pop)@[k].cost),
            is_scored(instance, *old(best), *old(best_cost)),
        ensures
            final(pop)@.len() == old(pop)@.len(),
            forall|k: int| 0 <= k < final(pop)@.len() ==> is_scored(instance, #[trigger] final(pop)@[k].solution, final(pop)@[k].cost),
            is_scored(instance, *final(best), *final(best_cost)),
            *final(best_cost) <= *old(best_cost),
            exists|i1: int, i2: int, child0: Solution, child: Solution|
                #[trigger] self.is_generation(
                    instance,
                    old(pop)@,
                    *old(best),
                    *old(best_cost),
                    i1,
                    i2,
                    child0,
                    child,
                    final(pop)@,
                    *final(best),
                    *final(best_cost),
                ),
    {
        let ghost m = instance.matrix();
        let ghost pop0 = pop@;
        let ghost best0 = *best;
        let ghost cost0 = *best_cost;
        let len = pop.len();
        let i1 = random_below(rng, len);
        let mut i2 = random_below(rng, len - 1);
        if i2 >= i1 {
            i2 = i2 + 1;
        }
        assert(is_scored(instance, pop@[i1 as int].solution, pop@[i1 as int].cost));
        let child0 = recombine(&pop[i1].solution, &pop[i2].solution, instance, rng);
        let ghost g0 = child0;
        let child = if self.with_local {
            self.base_local_search.improve(instance, child0, rng)
        } else {
            child0
        };
        let child_cost = child.calculate_cost(instance);
        let ghost gc = child;
        apply_replacement(pop, best, best_cost, child, child_cost, self.min_diff);
        assert(is_replacement(pop0, best0, cost0, gc, child_cost as int, self.min_diff as int, pop@, *best, *best_cost));
        proof {
            assert forall|k: int| 0 <= k < pop@.len() implies is_scored(instance, #[trigger] pop@[k].solution, pop@[k].cost) by {
                match replacement_spec(pop_costs(pop0), child_cost as int, cost0 as int, self.min_diff as int) {
                    Some(w) => {
                        assert(pop@ == pop0.update(w, PopulationMember { solution: gc, cost: child_cost }));
                        if k == w {
                            assert(pop@[k].solution == gc && pop@[k].cost == child_cost);
                        } else {
                            assert(pop@[k] == pop0[k]);
                        }
                    },
                    None => {
                        assert(pop@ == pop0);
                    },
                }
            }
            assert(self.is_generation(instance, pop0, best0, cost0, i1 as int, i2 as int, g0, gc, pop@, *best, *best_cost));
        }
    }

    /// One generation as it is stated: parents `i1 != i2` of `pop`, their
    /// recombination `child0`, the judged child `child` (the local search
    /// result from `child0` when so configured, else `child0`), and the
    /// population and best solution after the replacement rule.
    pub open spec fn is_generation(
        &self,
        instance: &TsplibInstance,
        pop: Seq<PopulationMember>,
        best: Solution,
        best_cost: i32,
        i1: int,
        i2: int,
        child0: Solution,
        child: Solution,
        new_pop: Seq<PopulationMember>,
        new_best: Solution,
        new_best_cost: i32,
    ) -> bool {
        let c = child.total_cost(instance.matrix());
        &&& 0 <= i1 < pop.len() && 0 <= i2 < pop.len() && i1 != i2
        &&& crate::perturbation::is_recombination(instance, pop[i1].solution, pop[i2].solution, child0)
        &&& self.with_local ==> self.base_local_search.improves_to(instance, child0, child)
        &&& !self.with_local ==> child == child0
        &&& is_replacement(pop, best, best_cost, child, c, self.min_diff as int, new_pop, new_best, new_best_cost)
    }
}

/// The replacement rule applied to a child of cost `c`: the member it picks
/// is overwritten with the child, and the child becomes the best solution
/// when it is shorter than the best.
pub open spec fn is_replacement(
    pop: Seq<PopulationMember>,
    best: Solution,
    best_cost: i32,
    child: Solution,
    c: int,
    min_diff: int,
    new_pop: Seq<PopulationMember>,
    new_best: Solution,
    new_best_cost: i32,
) -> bool {
    &&& match replacement_spec(pop_costs(pop), c, best_cost as int, min_diff) {
        Some(w) => 0 <= w < pop.len() && new_pop == pop.update(w, PopulationMember { solution: child, cost: c as i32 }),
        None => new_pop == pop,
    }
    &&& c < best_cost ==> new_best.cycle1@ == child.cycle1@ && new_best.cycle2@ == child.cycle2@ && new_best_cost == c
    &&& c >= best_cost ==> new_best == best && new_best_cost == best_cost
}

/// Applies the replacement rule to a child of cost `child_cost`.
pub fn apply_replacement(
    pop: &mut Vec<PopulationMember>,
    best: &mut Solution,
    best_cost: &mut i32,
    child: Solution,
    child_cost: i32,
    min_diff: i32,
)
    requires
        old(pop)@.len() > 0,
    ensures
        is_replacement(
            old(pop)@,
            *old(best),
            *old(best_cost),
            child,
            child_cost as int,
            min_diff as int,
            final(pop)@,
            *final(best),
            *final(best_cost),
        ),
{
    let len = pop.len();
    let mut costs: Vec<i32> = Vec::new();
    let mut k: usize = 0;
    while k < len
        invariant
            len == pop@.len(),
            costs@.len() == k,
            k <= len,
            forall|j: int| 0 <= j < k ==> costs@[j] == #[trigger] pop@[j].cost,
        decreases len - k,
    {
        costs.push(pop[k].cost);
        k += 1;
    }
    assert(costs@ =~= pop_costs(pop@));
    match replacement_index(&costs, child_cost, *best_cost, min_diff) {
        Some(w) => {
            if child_cost < *best_cost {
                *best = child.duplicate();
                *best_cost = child_cost;
            }
            pop.set(w, PopulationMember { solution: child, cost: child_cost });
        },
        None => {},
    }
}

} // verus!
