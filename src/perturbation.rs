//! Perturbations: a few random moves, and destroy-and-repair with weighted
//! regret reinsertion.

use vstd::prelude::*;
use rand::rngs::StdRng;
use crate::construct::{calculate_insertion_cost, insertion_cost_spec, lemma_insertion_cost_bounds, lemma_move_into};
use crate::local_search::NeighborhoodType;
use crate::random::{random_below, random_ratio};
use crate::cost::{nodes_below, MAX_DISTANCE, MAX_NODES};
use crate::moves::{lemma_join_distinct, lemma_split_distinct, Move};
use crate::tsplib::{CycleId, Solution, TsplibInstance};

verus! {

/// `a` and `b` share no entry.
pub open spec fn disjoint(a: Seq<usize>, b: Seq<usize>) -> bool {
    forall|x: usize| a.contains(x) ==> !#[trigger] b.contains(x)
}

/// Moving entry `idx` of `p` to position `pos` of `c` keeps the three lists
/// `c`, `p` and `other` distinct and pairwise disjoint.
proof fn lemma_move_pending(c: Seq<usize>, p: Seq<usize>, other: Seq<usize>, pos: int, idx: int, n: int)
    requires
        0 <= pos <= c.len(),
        0 <= idx < p.len(),
        c.no_duplicates(),
        p.no_duplicates(),
        other.no_duplicates(),
        disjoint(c, p),
        disjoint(c, other),
        disjoint(p, other),
        nodes_below(c, n),
        nodes_below(p, n),
    ensures
        ({
            let c2 = c.insert(pos, p[idx]);
            let p2 = p.remove(idx);
            &&& c2.no_duplicates()
            &&& p2.no_duplicates()
            &&& disjoint(c2, p2)
            &&& disjoint(c2, other)
            &&& disjoint(p2, other)
            &&& nodes_below(c2, n)
            &&& nodes_below(p2, n)
            &&& c2.len() == c.len() + 1
            &&& p2.len() == p.len() - 1
        }),
{
    let c2 = c.insert(pos, p[idx]);
    let p2 = p.remove(idx);
    lemma_join_distinct(c, p);
    crate::moves::lemma_concat_below(c, p, n);
    lemma_move_into(c, p, pos, idx, n);
    lemma_split_distinct(c2, p2);
    crate::moves::lemma_concat_below(c2, p2, n);
    assert forall|x: usize| c2.contains(x) implies !#[trigger] other.contains(x) by {
        let i = choose|i: int| 0 <= i < c2.len() && c2[i] == x;
        assert((c2 + p2)[i] == x);
        assert((c + p).contains(x));
        let j = choose|j: int| 0 <= j < (c + p).len() && (c + p)[j] == x;
        if j < c.len() {
            assert(c[j] == x);
            assert(c.contains(x));
        } else {
            assert(p[j - c.len()] == x);
            assert(p.contains(x));
        }
    }
    assert forall|x: usize| p2.contains(x) implies !#[trigger] other.contains(x) by {
        let i = choose|i: int| 0 <= i < p2.len() && p2[i] == x;
        assert((c2 + p2)[c2.len() + i] == x);
        assert((c + p).contains(x));
        let j = choose|j: int| 0 <= j < (c + p).len() && (c + p)[j] == x;
        if j < c.len() {
            assert(c[j] == x);
            assert(c.contains(x));
        } else {
            assert(p[j - c.len()] == x);
            assert(p.contains(x));
        }
    }
}

/// Number of insertion gaps of a tour of length `len`: one per node, and one
/// for an empty tour.
pub open spec fn gap_count(len: int) -> int {
    if len == 0 {
        1
    } else {
        len
    }
}

/// Scan of the first `k >= 1` gaps of `c` for `v`: the least insertion cost,
/// its first position, and the least cost at any other position (`None`
/// while only one gap has been seen).
pub open spec fn gap_scan(m: Seq<Seq<i32>>, c: Seq<usize>, v: usize, k: int) -> (int, int, Option<int>)
    decreases k,
{
    if k <= 1 {
        (insertion_cost_spec(m, c, v, 0), 0, None)
    } else {
        let prev = gap_scan(m, c, v, k - 1);
        let x = insertion_cost_spec(m, c, v, k - 1);
        if x < prev.0 {
            (x, k - 1, Some(prev.0))
        } else {
            match prev.2 {
                Some(s) => if x < s {
                    (prev.0, prev.1, Some(x))
                } else {
                    prev
                },
                None => (prev.0, prev.1, Some(x)),
            }
        }
    }
}

/// Cheapest and second-cheapest insertion of `v` over the gaps of one tour:
/// `(best cost, best position, second cost or None when the tour has a
/// single gap)`. Each gap is counted once: position `p` inserts before the
/// node at `p`.
fn gap_costs(v: usize, cycle: &Vec<usize>, instance: &TsplibInstance) -> (r: (i32, usize, Option<i32>))
    requires
        instance.wf(),
        v < instance.dimension,
        nodes_below(cycle@, instance.dimension as int),
        cycle@.len() <= MAX_NODES,
    ensures
        ({
            let g = gap_scan(instance.matrix(), cycle@, v, gap_count(cycle@.len() as int));
            &&& r.0 == g.0
            &&& r.1 == g.1
            &&& (r.2 is None <==> g.2 is None)
            &&& (r.2 matches Some(s) ==> g.2 == Some(s as int))
        }),
        r.1 <= cycle@.len(),
        -MAX_DISTANCE <= r.0 <= 2 * MAX_DISTANCE,
        r.2 matches Some(s) ==> r.0 <= s <= 2 * MAX_DISTANCE,
{
    let ghost m = instance.matrix();
    let len = cycle.len();
    let gaps = if len == 0 { 1 } else { len };
    proof {
        lemma_insertion_cost_bounds(m, cycle@, v, 0, instance.dimension as int);
    }
    let mut best = calculate_insertion_cost(v, 0, cycle, instance);
    let mut best_pos: usize = 0;
    let mut second: Option<i32> = None;
    let mut p: usize = 1;
    while p < gaps
        invariant
            instance.wf(),
            m == instance.matrix(),
            v < instance.dimension,
            nodes_below(cycle@, instance.dimension as int),
            len == cycle@.len(),
            len <= MAX_NODES,
            gaps == gap_count(len as int),
            1 <= p <= gaps,
            best_pos <= len,
            -MAX_DISTANCE <= best <= 2 * MAX_DISTANCE,
            second matches Some(s) ==> best <= s <= 2 * MAX_DISTANCE,
            ({
                let g = gap_scan(m, cycle@, v, p as int);
                &&& best == g.0
                &&& best_pos == g.1
                &&& (second is None <==> g.2 is None)
                &&& (second matches Some(s) ==> g.2 == Some(s as int))
            }),
        decreases gaps - p,
    {
        proof {
            lemma_insertion_cost_bounds(m, cycle@, v, p as int, instance.dimension as int);
        }
        let c = calculate_insertion_cost(v, p, cycle, instance);
        if c < best {
            second = Some(best);
            best = c;
            best_pos = p;
        } else {
            match second {
                Some(s) => {
                    if c < s {
                        second = Some(c);
                    }
                },
                None => {
                    second = Some(c);
                },
            }
        }
        p += 1;
    }
    (best, best_pos, second)
}

/// Where `v` would go and what it would cost, over the gaps of the tours still
/// below their target sizes: `(best cost, tour, position, second-best
/// cost)`; the second-best cost is the best one when there is a single gap.
pub open spec fn node_choice(
    m: Seq<Seq<i32>>,
    c1: Seq<usize>,
    c2: Seq<usize>,
    t1: int,
    t2: int,
    v: usize,
) -> (int, CycleId, int, int) {
    let open1 = c1.len() < t1;
    let open2 = c2.len() < t2;
    let g1 = gap_scan(m, c1, v, gap_count(c1.len() as int));
    let g2 = gap_scan(m, c2, v, gap_count(c2.len() as int));
    if open1 && open2 {
        if g1.0 <= g2.0 {
            (g1.0, CycleId::Cycle1, g1.1, match g1.2 {
                Some(s) => if s < g2.0 { s } else { g2.0 },
                None => g2.0,
            })
        } else {
            (g2.0, CycleId::Cycle2, g2.1, match g2.2 {
                Some(s) => if s < g1.0 { s } else { g1.0 },
                None => g1.0,
            })
        }
    } else if open1 {
        (g1.0, CycleId::Cycle1, g1.1, match g1.2 {
            Some(s) => s,
            None => g1.0,
        })
    } else {
        (g2.0, CycleId::Cycle2, g2.1, match g2.2 {
            Some(s) => s,
            None => g2.0,
        })
    }
}

/// Weighted regret of `v`: `regret - best cost`, the regret being how much
/// more its second-best insertion costs than its best.
pub open spec fn node_score(m: Seq<Seq<i32>>, c1: Seq<usize>, c2: Seq<usize>, t1: int, t2: int, v: usize) -> int {
    let ch = node_choice(m, c1, c2, t1, t2, v);
    (ch.3 - ch.0) - ch.0
}

/// Index of the first pending node of greatest score among the first `k`.
pub open spec fn best_pending(
    m: Seq<Seq<i32>>,
    c1: Seq<usize>,
    c2: Seq<usize>,
    t1: int,
    t2: int,
    pending: Seq<usize>,
    k: int,
) -> int
    decreases k,
{
    if k <= 1 {
        0
    } else {
        let i = best_pending(m, c1, c2, t1, t2, pending, k - 1);
        if node_score(m, c1, c2, t1, t2, pending[k - 1]) > node_score(m, c1, c2, t1, t2, pending[i]) {
            k - 1
        } else {
            i
        }
    }
}

pub proof fn lemma_best_pending_range(
    m: Seq<Seq<i32>>,
    c1: Seq<usize>,
    c2: Seq<usize>,
    t1: int,
    t2: int,
    pending: Seq<usize>,
    k: int,
)
    requires
        k >= 1,
    ensures
        0 <= best_pending(m, c1, c2, t1, t2, pending, k) < k,
    decreases k,
{
    if k > 1 {
        lemma_best_pending_range(m, c1, c2, t1, t2, pending, k - 1);
    }
}

/// The tours after reinserting every pending node: each round takes the
/// pending node of greatest weighted regret and inserts it at its best gap.
pub open spec fn repair_spec(
    m: Seq<Seq<i32>>,
    c1: Seq<usize>,
    c2: Seq<usize>,
    t1: int,
    t2: int,
    pending: Seq<usize>,
) -> (Seq<usize>, Seq<usize>)
    decreases pending.len(),
{
    if pending.len() == 0 {
        (c1, c2)
    } else {
        let i = best_pending(m, c1, c2, t1, t2, pending, pending.len() as int);
        if 0 <= i < pending.len() {
            let v = pending[i];
            let ch = node_choice(m, c1, c2, t1, t2, v);
            if ch.1 == CycleId::Cycle1 {
                repair_spec(m, c1.insert(ch.2, v), c2, t1, t2, pending.remove(i))
            } else {
                repair_spec(m, c1, c2.insert(ch.2, v), t1, t2, pending.remove(i))
            }
        } else {
            (c1, c2)
        }
    }
}

/// The pending node to insert next and where: the node of greatest weighted
/// regret over the gaps of the tours still below their target sizes,
/// inserted at its cheapest gap; the first such node on ties.
fn choose_reinsertion(
    solution: &Solution,
    pending: &Vec<usize>,
    target1: usize,
    target2: usize,
    instance: &TsplibInstance,
) -> (r: (usize, CycleId, usize))
    requires
        instance.wf(),
        pending@.len() > 0,
        solution.cycle1@.len() < target1 || solution.cycle2@.len() < target2,
        nodes_below(solution.cycle1@, instance.dimension as int),
        nodes_below(solution.cycle2@, instance.dimension as int),
        nodes_below(pending@, instance.dimension as int),
        solution.cycle1@.len() <= MAX_NODES,
        solution.cycle2@.len() <= MAX_NODES,
    ensures
        r.0 == best_pending(
            instance.matrix(),
            solution.cycle1@,
            solution.cycle2@,
            target1 as int,
            target2 as int,
            pending@,
            pending@.len() as int,
        ),
        ({
            let ch = node_choice(
                instance.matrix(),
                solution.cycle1@,
                solution.cycle2@,
                target1 as int,
                target2 as int,
                pending@[r.0 as int],
            );
            r.1 == ch.1 && r.2 == ch.2
        }),
        r.0 < pending@.len(),
        r.1 == CycleId::Cycle1 ==> solution.cycle1@.len() < target1 && r.2 <= solution.cycle1@.len(),
        r.1 == CycleId::Cycle2 ==> solution.cycle2@.len() < target2 && r.2 <= solution.cycle2@.len(),
{
    let ghost m = instance.matrix();
    let ghost c1 = solution.cycle1@;
    let ghost c2 = solution.cycle2@;
    let ghost t1 = target1 as int;
    let ghost t2 = target2 as int;
    let (s0, cy0, p0) = score_node(solution, pending[0], target1, target2, instance);
    let mut best_idx: usize = 0;
    let mut best_cycle = cy0;
    let mut best_pos: usize = p0;
    let mut best_score: i64 = s0;
    let mut i: usize = 1;
    while i < pending.len()
        invariant
            instance.wf(),
            m == instance.matrix(),
            c1 == solution.cycle1@,
            c2 == solution.cycle2@,
            t1 == target1,
            t2 == target2,
            solution.cycle1@.len() < target1 || solution.cycle2@.len() < target2,
            nodes_below(solution.cycle1@, instance.dimension as int),
            nodes_below(solution.cycle2@, instance.dimension as int),
            nodes_below(pending@, instance.dimension as int),
            solution.cycle1@.len() <= MAX_NODES,
            solution.cycle2@.len() <= MAX_NODES,
            1 <= i <= pending@.len(),
            best_idx < i,
            best_idx == best_pending(m, c1, c2, t1, t2, pending@, i as int),
            best_score == node_score(m, c1, c2, t1, t2, pending@[best_idx as int]),
            ({
                let ch = node_choice(m, c1, c2, t1, t2, pending@[best_idx as int]);
                best_cycle == ch.1 && best_pos == ch.2
            }),
            best_cycle == CycleId::Cycle1 ==> solution.cycle1@.len() < target1 && best_pos <= solution.cycle1@.len(),
            best_cycle == CycleId::Cycle2 ==> solution.cycle2@.len() < target2 && best_pos <= solution.cycle2@.len(),
        decreases pending@.len() - i,
    {
        let (score, cycle, pos) = score_node(solution, pending[i], target1, target2, instance);
        if score > best_score {
            best_score = score;
            best_idx = i;
            best_cycle = cycle;
            best_pos = pos;
        }
        i += 1;
    }
    (best_idx, best_cycle, best_pos)
}

/// The weighted regret of `v`, with the tour and position it would go to.
fn score_node(solution: &Solution, v: usize, target1: usize, target2: usize, instance: &TsplibInstance) -> (r: (
    i64,
    CycleId,
    usize,
))
    requires
        instance.wf(),
        v < instance.dimension,
        solution.cycle1@.len() < target1 || solution.cycle2@.len() < target2,
        nodes_below(solution.cycle1@, instance.dimension as int),
        nodes_below(solution.cycle2@, instance.dimension as int),
        solution.cycle1@.len() <= MAX_NODES,
        solution.cycle2@.len() <= MAX_NODES,
    ensures
        ({
            let ch = node_choice(
                instance.matrix(),
                solution.cycle1@,
                solution.cycle2@,
                target1 as int,
                target2 as int,
                v,
            );
            &&& r.0 == node_score(
                instance.matrix(),
                solution.cycle1@,
                solution.cycle2@,
                target1 as int,
                target2 as int,
                v,
            )
            &&& r.1 == ch.1
            &&& r.2 == ch.2
        }),
        r.1 == CycleId::Cycle1 ==> solution.cycle1@.len() < target1 && r.2 <= solution.cycle1@.len(),
        r.1 == CycleId::Cycle2 ==> solution.cycle2@.len() < target2 && r.2 <= solution.cycle2@.len(),
{
    let open1 = solution.cycle1.len() < target1;
    let open2 = solution.cycle2.len() < target2;
    let (b1, p1, s1) = gap_costs(v, &solution.cycle1, instance);
    let (b2, p2, s2) = gap_costs(v, &solution.cycle2, instance);
    let (best, cycle, pos, second) = if open1 && open2 {
        if b1 <= b2 {
            let sec = match s1 {
                Some(s) => if s < b2 { s } else { b2 },
                None => b2,
            };
            (b1, CycleId::Cycle1, p1, sec)
        } else {
            let sec = match s2 {
                Some(s) => if s < b1 { s } else { b1 },
                None => b1,
            };
            (b2, CycleId::Cycle2, p2, sec)
        }
    } else if open1 {
        (b1, CycleId::Cycle1, p1, match s1 { Some(s) => s, None => b1 })
    } else {
        (b2, CycleId::Cycle2, p2, match s2 { Some(s) => s, None => b2 })
    };
    ((second as i64 - best as i64) - best as i64, cycle, pos)
}

/// Reinserts every `removed` node by weighted regret, never growing a tour
/// past its target size of `ceil(n/2)` or `floor(n/2)` nodes. With nothing
/// removed it leaves the solution unchanged.
pub fn repair(solution: &mut Solution, instance: &TsplibInstance, removed: Vec<usize>)
    requires
        instance.wf(),
        old(solution).well_formed(instance.dimension as int),
        removed@.no_duplicates(),
        nodes_below(removed@, instance.dimension as int),
        disjoint(old(solution).cycle1@ + old(solution).cycle2@, removed@),
        old(solution).cycle1@.len() + old(solution).cycle2@.len() + removed@.len() == instance.dimension,
        old(solution).cycle1@.len() <= (instance.dimension + 1) / 2,
        old(solution).cycle2@.len() <= instance.dimension / 2,
    ensures
        final(solution).is_valid_for(instance.dimension as int),
        (final(solution).cycle1@, final(solution).cycle2@) == repair_spec(
            instance.matrix(),
            old(solution).cycle1@,
            old(solution).cycle2@,
            (instance.dimension as int + 1) / 2,
            instance.dimension as int / 2,
            removed@,
        ),
        removed@.len() == 0 ==> final(solution).cycle1@ == old(solution).cycle1@
            && final(solution).cycle2@ == old(solution).cycle2@,
{
    let ghost n = instance.dimension as int;
    let nn = instance.dimension;
    let target1 = nn - nn / 2;
    let target2 = nn / 2;
    let mut pending = removed;
    let ghost len0 = pending@.len();
    let ghost c1_0 = solution.cycle1@;
    let ghost c2_0 = solution.cycle2@;
    let ghost p_0 = pending@;
    let ghost m = instance.matrix();
    assert(target1 == (nn + 1) / 2);
    proof {
        lemma_split_distinct(solution.cycle1@, solution.cycle2@);
        let all = solution.cycle1@ + solution.cycle2@;
        assert forall|x: usize| solution.cycle1@.contains(x) implies !#[trigger] pending@.contains(x) by {
            let i = choose|i: int| 0 <= i < solution.cycle1@.len() && solution.cycle1@[i] == x;
            assert(all[i] == x);
            assert(all.contains(x));
        }
        assert forall|x: usize| solution.cycle2@.contains(x) implies !#[trigger] pending@.contains(x) by {
            let i = choose|i: int| 0 <= i < solution.cycle2@.len() && solution.cycle2@[i] == x;
            assert(all[solution.cycle1@.len() + i] == x);
            assert(all.contains(x));
        }
        assert forall|x: usize| pending@.contains(x) implies !#[trigger] solution.cycle1@.contains(x) by {}
        assert forall|x: usize| pending@.contains(x) implies !#[trigger] solution.cycle2@.contains(x) by {}
        assert forall|x: usize| solution.cycle2@.contains(x) implies !#[trigger] solution.cycle1@.contains(x) by {}
    }
    while pending.len() > 0
        invariant
            instance.wf(),
            n == instance.dimension,
            nn == instance.dimension,
            target1 == nn - nn / 2,
            target2 == nn / 2,
            solution.cycle1@.len() + solution.cycle2@.len() + pending@.len() == n,
            solution.cycle1@.len() <= target1,
            solution.cycle2@.len() <= target2,
            solution.cycle1@.no_duplicates(),
            solution.cycle2@.no_duplicates(),
            pending@.no_duplicates(),
            disjoint(solution.cycle1@, solution.cycle2@),
            disjoint(solution.cycle2@, solution.cycle1@),
            disjoint(solution.cycle1@, pending@),
            disjoint(pending@, solution.cycle1@),
            disjoint(solution.cycle2@, pending@),
            disjoint(pending@, solution.cycle2@),
            nodes_below(solution.cycle1@, n),
            nodes_below(solution.cycle2@, n),
            nodes_below(pending@, n),
            len0 == 0 ==> solution.cycle1@ == c1_0 && solution.cycle2@ == c2_0 && pending@.len() == 0,
            m == instance.matrix(),
            repair_spec(m, solution.cycle1@, solution.cycle2@, target1 as int, target2 as int, pending@) == repair_spec(
                m,
                c1_0,
                c2_0,
                target1 as int,
                target2 as int,
                p_0,
            ),
        decreases pending@.len(),
    {
        proof {
            lemma_best_pending_range(
                m,
                solution.cycle1@,
                solution.cycle2@,
                target1 as int,
                target2 as int,
                pending@,
                pending@.len() as int,
            );
        }
        let (idx, cycle, pos) = choose_reinsertion(solution, &pending, target1, target2, instance);
        match cycle {
            CycleId::Cycle1 => {
                proof {
                    lemma_move_pending(solution.cycle1@, pending@, solution.cycle2@, pos as int, idx as int, n);
                }
                let v = pending.remove(idx);
                solution.cycle1.insert(pos, v);
            },
            CycleId::Cycle2 => {
                proof {
                    lemma_move_pending(solution.cycle2@, pending@, solution.cycle1@, pos as int, idx as int, n);
                }
                let v = pending.remove(idx);
                solution.cycle2.insert(pos, v);
            },
        }
        proof {
            assert forall|x: usize| solution.cycle2@.contains(x) implies !#[trigger] solution.cycle1@.contains(x) by {}
            assert forall|x: usize| pending@.contains(x) implies !#[trigger] solution.cycle1@.contains(x) by {}
            assert forall|x: usize| pending@.contains(x) implies !#[trigger] solution.cycle2@.contains(x) by {}
        }
    }
    proof {
        lemma_join_distinct(solution.cycle1@, solution.cycle2@);
    }
}

pub proof fn lemma_concat_contains(a: Seq<usize>, b: Seq<usize>, x: usize)
    ensures
        (a + b).contains(x) <==> a.contains(x) || b.contains(x),
{
    if (a + b).contains(x) {
        let i = choose|i: int| 0 <= i < (a + b).len() && (a + b)[i] == x;
        if i < a.len() {
            assert(a[i] == x);
        } else {
            assert(b[i - a.len()] == x);
        }
    }
    if a.contains(x) {
        let i = choose|i: int| 0 <= i < a.len() && a[i] == x;
        assert((a + b)[i] == x);
    }
    if b.contains(x) {
        let i = choose|i: int| 0 <= i < b.len() && b[i] == x;
        assert((a + b)[a.len() + i] == x);
    }
}

proof fn lemma_push_distinct(s: Seq<usize>, x: usize)
    requires
        s.no_duplicates(),
        !s.contains(x),
    ensures
        s.push(x).no_duplicates(),
{
    assert forall|i: int, j: int| 0 <= i < s.len() + 1 && 0 <= j < s.len() + 1 && i != j implies s.push(x)[i]
        != s.push(x)[j] by {
        if i < s.len() && j == s.len() {
            assert(s.contains(s[i]));
        } else if j < s.len() && i == s.len() {
            assert(s.contains(s[j]));
        }
    }
}

/// Node `x` is marked in `marks`.
pub open spec fn is_marked(marks: Seq<bool>, x: usize) -> bool {
    x < marks.len() && marks[x as int]
}

pub open spec fn unmarked(marks: Seq<bool>) -> spec_fn(usize) -> bool {
    |x: usize| !is_marked(marks, x)
}

pub open spec fn marked_in(marks: Seq<bool>) -> spec_fn(usize) -> bool {
    |x: usize| is_marked(marks, x)
}

/// Splits a tour into the nodes that stay (not marked) and the nodes that
/// leave (marked), each in tour order.
fn split_cycle(c: &Vec<usize>, marked: &Vec<bool>) -> (r: (Vec<usize>, Vec<usize>))
    requires
        c@.no_duplicates(),
    ensures
        r.0@.no_duplicates(),
        r.1@.no_duplicates(),
        disjoint(r.0@, r.1@),
        r.0@.len() + r.1@.len() == c@.len(),
        forall|x: usize| #[trigger] r.0@.contains(x) ==> c@.contains(x),
        forall|x: usize| #[trigger] r.1@.contains(x) ==> c@.contains(x),
        r.0@ == c@.filter(unmarked(marked@)),
        r.1@ == c@.filter(marked_in(marked@)),
{
    let mut kept: Vec<usize> = Vec::new();
    let mut out: Vec<usize> = Vec::new();
    let mut i: usize = 0;
    proof {
        reveal(Seq::filter);
        assert(c@.take(0).len() == 0);
    }
    while i < c.len()
        invariant
            c@.no_duplicates(),
            0 <= i <= c@.len(),
            kept@.no_duplicates(),
            out@.no_duplicates(),
            disjoint(kept@, out@),
            kept@.len() + out@.len() == i,
            forall|x: usize| #[trigger] kept@.contains(x) ==> c@.take(i as int).contains(x),
            forall|x: usize| #[trigger] out@.contains(x) ==> c@.take(i as int).contains(x),
            kept@ == c@.take(i as int).filter(unmarked(marked@)),
            out@ == c@.take(i as int).filter(marked_in(marked@)),
        decreases c@.len() - i,
    {
        let v = c[i];
        proof {
            reveal(Seq::filter);
            assert(c@.take(i as int + 1).drop_last() =~= c@.take(i as int));
            assert(c@.take(i as int + 1).last() == v);
        }
        let ghost k0 = kept@;
        let ghost o0 = out@;
        assert(!c@.take(i as int).contains(v)) by {
            if c@.take(i as int).contains(v) {
                let j = choose|j: int| 0 <= j < i && c@.take(i as int)[j] == v;
                assert(c@[j] == c@[i as int]);
            }
        }
        assert forall|x: usize| c@.take(i as int).contains(x) implies #[trigger] c@.take(i as int + 1).contains(x) by {
            let j = choose|j: int| 0 <= j < i && c@.take(i as int)[j] == x;
            assert(c@.take(i as int + 1)[j] == x);
        }
        assert(c@.take(i as int + 1)[i as int] == v);
        let mark = v < marked.len() && marked[v];
        assert(!k0.contains(v));
        assert(!o0.contains(v));
        if mark {
            proof {
                lemma_push_distinct(o0, v);
            }
            out.push(v);
            assert forall|x: usize| #[trigger] out@.contains(x) implies o0.contains(x) || x == v by {
                let j = choose|j: int| 0 <= j < out@.len() && out@[j] == x;
                if j < o0.len() {
                    assert(o0[j] == x);
                }
            }
        } else {
            proof {
                lemma_push_distinct(k0, v);
            }
            kept.push(v);
            assert forall|x: usize| #[trigger] kept@.contains(x) implies k0.contains(x) || x == v by {
                let j = choose|j: int| 0 <= j < kept@.len() && kept@[j] == x;
                if j < k0.len() {
                    assert(k0[j] == x);
                }
            }
        }
        i += 1;
    }
    assert(c@.take(c@.len() as int) =~= c@);
    proof {
        reveal(Seq::filter);
        assert(c@.take(0).filter(unmarked(marked@)) =~= Seq::<usize>::empty());
    }
    (kept, out)
}

/// Removes the marked nodes from both tours and returns them, those of the
/// first tour first, each in tour order.
pub fn remove_marked(solution: &mut Solution, marked: &Vec<bool>) -> (removed: Vec<usize>)
    requires
        old(solution).distinct(),
    ensures
        final(solution).distinct(),
        removed@.no_duplicates(),
        disjoint(final(solution).cycle1@ + final(solution).cycle2@, removed@),
        final(solution).cycle1@.len() + final(solution).cycle2@.len() + removed@.len() == old(solution).cycle1@.len()
            + old(solution).cycle2@.len(),
        final(solution).cycle1@.len() <= old(solution).cycle1@.len(),
        final(solution).cycle2@.len() <= old(solution).cycle2@.len(),
        forall|x: usize| #[trigger] (final(solution).cycle1@ + final(solution).cycle2@).contains(x) ==> (old(
            solution,
        ).cycle1@ + old(solution).cycle2@).contains(x),
        forall|x: usize| #[trigger] removed@.contains(x) ==> (old(solution).cycle1@ + old(solution).cycle2@).contains(x),
        final(solution).cycle1@ == old(solution).cycle1@.filter(unmarked(marked@)),
        final(solution).cycle2@ == old(solution).cycle2@.filter(unmarked(marked@)),
        removed@ == old(solution).cycle1@.filter(marked_in(marked@)) + old(solution).cycle2@.filter(marked_in(marked@)),
{
    let ghost c1 = solution.cycle1@;
    let ghost c2 = solution.cycle2@;
    proof {
        lemma_split_distinct(c1, c2);
    }
    let (k1, o1) = split_cycle(&solution.cycle1, marked);
    let (k2, o2) = split_cycle(&solution.cycle2, marked);
    proof {
        assert forall|x: usize| k1@.contains(x) implies !#[trigger] k2@.contains(x) by {}
        lemma_join_distinct(k1@, k2@);
        assert forall|x: usize| o1@.contains(x) implies !#[trigger] o2@.contains(x) by {}
        lemma_join_distinct(o1@, o2@);
        assert forall|x: usize| (k1@ + k2@).contains(x) implies !#[trigger] (o1@ + o2@).contains(x) by {
            lemma_concat_contains(k1@, k2@, x);
            lemma_concat_contains(o1@, o2@, x);
        }
        assert forall|x: usize| #[trigger] (k1@ + k2@).contains(x) implies (c1 + c2).contains(x) by {
            lemma_concat_contains(k1@, k2@, x);
            lemma_concat_contains(c1, c2, x);
        }
        assert forall|x: usize| #[trigger] (o1@ + o2@).contains(x) implies (c1 + c2).contains(x) by {
            lemma_concat_contains(o1@, o2@, x);
            lemma_concat_contains(c1, c2, x);
        }
    }
    solution.cycle1 = k1;
    solution.cycle2 = k2;
    let mut removed = o1;
    let mut o2 = o2;
    removed.append(&mut o2);
    removed
}

/// Entries drawn from the nodes `0..n` all lie below `n`.
proof fn lemma_subset_below(s: Seq<usize>, t: Seq<usize>, n: int)
    requires
        nodes_below(t, n),
        forall|x: usize| #[trigger] s.contains(x) ==> t.contains(x),
    ensures
        nodes_below(s, n),
{
    assert forall|k: int| 0 <= k < s.len() implies #[trigger] s[k] < n by {
        assert(s.contains(s[k]));
        let j = choose|j: int| 0 <= j < t.len() && t[j] == s[k];
    }
}

/// Removes the marked nodes and reinserts them by weighted regret, those of
/// the first tour first, each in tour order.
pub fn destroy_and_repair(solution: &mut Solution, instance: &TsplibInstance, marked: &Vec<bool>)
    requires
        instance.wf(),
        old(solution).is_valid_for(instance.dimension as int),
    ensures
        final(solution).is_valid_for(instance.dimension as int),
        (final(solution).cycle1@, final(solution).cycle2@) == repair_spec(
            instance.matrix(),
            old(solution).cycle1@.filter(unmarked(marked@)),
            old(solution).cycle2@.filter(unmarked(marked@)),
            (instance.dimension as int + 1) / 2,
            instance.dimension as int / 2,
            old(solution).cycle1@.filter(marked_in(marked@)) + old(solution).cycle2@.filter(marked_in(marked@)),
        ),
{
    let ghost n = instance.dimension as int;
    let ghost before = *solution;
    proof {
        crate::moves::lemma_concat_below(before.cycle1@, before.cycle2@, n);
    }
    let removed = remove_marked(solution, marked);
    proof {
        lemma_subset_below(solution.cycle1@ + solution.cycle2@, before.cycle1@ + before.cycle2@, n);
        lemma_subset_below(removed@, before.cycle1@ + before.cycle2@, n);
        crate::moves::lemma_concat_below(solution.cycle1@, solution.cycle2@, n);
    }
    repair(solution, instance, removed);
}

/// Destroy-and-repair perturbation: removes a share of the nodes chosen
/// uniformly at random and reinserts them by weighted regret.
pub struct LargePerturbation {
    /// Share of the nodes removed, in percent.
    pub destroy_percent: usize,
}

impl LargePerturbation {
    pub fn new(destroy_percent: usize) -> (r: Self)
        ensures
            r.destroy_percent == destroy_percent,
    {
        LargePerturbation { destroy_percent }
    }

    /// Number of nodes removed from an instance of `n` nodes:
    /// `floor(n * percent / 100)`, and all of them above 100 percent.
    pub fn destroy_count(&self, n: usize) -> (r: usize)
        requires
            n <= MAX_NODES,
        ensures
            r == destroy_count_spec(self.destroy_percent as int, n as int),
            self.destroy_percent <= 100 ==> r == n * self.destroy_percent / 100,
            self.destroy_percent > 100 ==> r == n,
    {
        if self.destroy_percent > 100 {
            n
        } else {
            assert(n * self.destroy_percent <= MAX_NODES * 100) by (nonlinear_arith)
                requires n <= MAX_NODES, self.destroy_percent <= 100;
            n * self.destroy_percent / 100
        }
    }

    /// Removes the first `destroy_count(n)` nodes of a random order of all
    /// nodes and reinserts them by weighted regret.
    pub fn perturb(&self, solution: &mut Solution, instance: &TsplibInstance, rng: &mut StdRng)
        requires
            instance.wf(),
            old(solution).is_valid_for(instance.dimension as int),
        ensures
            final(solution).is_valid_for(instance.dimension as int),
            self.perturbs_to(instance, *old(solution), *final(solution)),
    {
        let n = instance.dimension;
        let order = crate::utils::random_permutation(n, rng);
        let ghost before = *solution;
        self.perturb_with_order(solution, instance, &order);
        assert(destroyed_and_repaired(
            instance,
            before,
            first_marks(order@, destroy_count_spec(self.destroy_percent as int, n as int), n as int),
            *solution,
        ));
    }

    /// Removes the first `destroy_count(n)` nodes of `order` and reinserts
    /// them by weighted regret.
    pub fn perturb_with_order(&self, solution: &mut Solution, instance: &TsplibInstance, order: &Vec<usize>)
        requires
            instance.wf(),
            old(solution).is_valid_for(instance.dimension as int),
            order@.len() == instance.dimension,
            nodes_below(order@, instance.dimension as int),
        ensures
            final(solution).is_valid_for(instance.dimension as int),
            destroyed_and_repaired(
                instance,
                *old(solution),
                first_marks(order@, destroy_count_spec(self.destroy_percent as int, instance.dimension as int), instance.dimension as int),
                *final(solution),
            ),
    {
        let n = instance.dimension;
        let count = self.destroy_count(n);
        let mut marked: Vec<bool> = Vec::new();
        let mut k: usize = 0;
        while k < n
            invariant
                0 <= k <= n,
                marked@.len() == k,
                forall|x: int| 0 <= x < k ==> !#[trigger] marked@[x],
            decreases n - k,
        {
            marked.push(false);
            k += 1;
        }
        let mut i: usize = 0;
        assert(count <= n) by (nonlinear_arith)
            requires
                self.destroy_percent <= 100 ==> count == n * self.destroy_percent / 100,
                self.destroy_percent > 100 ==> count == n;
        assert(marked@ =~= first_marks(order@, 0, n as int));
        while i < count
            invariant
                count <= n,
                0 <= i <= count,
                order@.len() == n,
                nodes_below(order@, n as int),
                marked@ == first_marks(order@, i as int, n as int),
            decreases count - i,
        {
            proof {
                crate::local_search::lemma_take_contains(order@, i as int);
            }
            marked.set(order[i], true);
            assert(marked@ =~= first_marks(order@, i as int + 1, n as int));
            i += 1;
        }
        destroy_and_repair(solution, instance, &marked);
    }
}

impl LargePerturbation {
    /// `after` is `before` with the first `destroy_count(n)` nodes of some
    /// order of all nodes removed and reinserted by weighted regret.
    pub open spec fn perturbs_to(&self, instance: &TsplibInstance, before: Solution, after: Solution) -> bool {
        exists|order: Seq<usize>|
            order.len() == instance.dimension && order.no_duplicates() && nodes_below(order, instance.dimension as int)
                && #[trigger] destroyed_and_repaired(
                instance,
                before,
                first_marks(
                    order,
                    destroy_count_spec(self.destroy_percent as int, instance.dimension as int),
                    instance.dimension as int,
                ),
                after,
            )
    }
}

/// `floor(n * percent / 100)`, and `n` above 100 percent.
pub open spec fn destroy_count_spec(percent: int, n: int) -> int {
    if percent > 100 {
        n
    } else {
        n * percent / 100
    }
}

/// The nodes among the first `count` entries of `order`, as marks over the
/// nodes below `n`.
pub open spec fn first_marks(order: Seq<usize>, count: int, n: int) -> Seq<bool> {
    Seq::new(n as nat, |x: int| order.take(count).contains(x as usize))
}

/// `after` is `before` with the `marks`ed nodes removed and reinserted by
/// weighted regret.
pub open spec fn destroyed_and_repaired(instance: &TsplibInstance, before: Solution, marks: Seq<bool>, after: Solution) -> bool {
    (after.cycle1@, after.cycle2@) == repair_spec(
        instance.matrix(),
        before.cycle1@.filter(unmarked(marks)),
        before.cycle2@.filter(unmarked(marks)),
        (instance.dimension as int + 1) / 2,
        instance.dimension as int / 2,
        before.cycle1@.filter(marked_in(marks)) + before.cycle2@.filter(marked_in(marks)),
    )
}

/// A few random moves of the neighbourhood, whatever their deltas.
pub struct SmallPerturbation {
    pub num_moves: usize,
}

impl SmallPerturbation {
    pub fn new(num_moves: usize) -> (r: Self)
        ensures
            r.num_moves == num_moves,
    {
        SmallPerturbation { num_moves }
    }

    /// Applies `num_moves` moves drawn at random: an exchange between the
    /// tours or, with equal chance, a move of `neighborhood` inside a random
    /// tour between two random positions; a draw that names no move is
    /// skipped.
    pub fn perturb(
        &self,
        solution: &mut Solution,
        instance: &TsplibInstance,
        neighborhood: NeighborhoodType,
        rng: &mut StdRng,
    )
        requires
            instance.wf(),
            old(solution).is_valid_for(instance.dimension as int),
        ensures
            final(solution).is_valid_for(instance.dimension as int),
            exists|chain: Seq<Solution>| #[trigger] is_draw_chain(neighborhood, chain, self.num_moves as int, *old(solution), *final(solution)),
    {
        let ghost n = instance.dimension as int;
        let ghost mut chain: Seq<Solution> = seq![*solution];
        let mut k: usize = 0;
        while k < self.num_moves
            invariant
                instance.wf(),
                n == instance.dimension,
                solution.is_valid_for(n),
                0 <= k <= self.num_moves,
                is_draw_chain(neighborhood, chain, k as int, *old(solution), *solution),
                chain[k as int] == *solution,
            decreases self.num_moves - k,
        {
            let ghost before = *solution;
            let kind = random_below(rng, 2);
            let which = random_below(rng, 2);
            let cycle = if which == 0 { CycleId::Cycle1 } else { CycleId::Cycle2 };
            let (l1, l2) = if kind == 0 {
                (solution.cycle1.len(), solution.cycle2.len())
            } else {
                (solution.get_cycle(cycle).len(), solution.get_cycle(cycle).len())
            };
            if l1 > 0 && l2 > 0 {
                let p = random_below(rng, l1);
                let q = random_below(rng, l2);
                apply_drawn_move(solution, instance, neighborhood, kind == 0, cycle, p, q);
                assert(draw_in_range(before, kind == 0, cycle, p as int, q as int));
                assert(drawn_outcome(before, neighborhood, kind == 0, cycle, p as int, q as int, *solution));
            } else {
                assert(draw_impossible(before, kind == 0, cycle));
            }
            proof {
                let c2 = chain.push(*solution);
                assert forall|i: int| 0 <= i < k + 1 implies #[trigger] is_drawn_step(neighborhood, c2[i], c2[i + 1]) by {
                    if i < k {
                        assert(c2[i] == chain[i] && c2[i + 1] == chain[i + 1]);
                    } else {
                        assert(c2[i] == before);
                    }
                }
                chain = c2;
            }
            k += 1;
        }
    }
}

/// `after` is `before` after the move that a draw names, or unchanged when it
/// names none.
pub open spec fn drawn_outcome(
    before: Solution,
    nb: NeighborhoodType,
    between: bool,
    cycle: CycleId,
    p: int,
    q: int,
    after: Solution,
) -> bool {
    match drawn_move(before, nb, between, cycle, p, q) {
        Some(mv) => (after.cycle1@, after.cycle2@) == crate::moves::apply_spec(before.cycle1@, before.cycle2@, mv),
        None => after.cycle1@ == before.cycle1@ && after.cycle2@ == before.cycle2@,
    }
}

/// Positions a draw can take: a position of each tour for an exchange
/// between them, otherwise two positions of the tour `cycle`.
pub open spec fn draw_in_range(before: Solution, between: bool, cycle: CycleId, p: int, q: int) -> bool {
    if between {
        0 <= p < before.cycle1@.len() && 0 <= q < before.cycle2@.len()
    } else {
        0 <= p < before.cycle_of(cycle).len() && 0 <= q < before.cycle_of(cycle).len()
    }
}

/// No position can be drawn: a tour the draw needs is empty.
pub open spec fn draw_impossible(before: Solution, between: bool, cycle: CycleId) -> bool {
    if between {
        before.cycle1@.len() == 0 || before.cycle2@.len() == 0
    } else {
        before.cycle_of(cycle).len() == 0
    }
}

/// `after` follows from `before` by one draw of positions in range, or is
/// `before` when the drawn kind of move has no positions to draw.
pub open spec fn is_drawn_step(nb: NeighborhoodType, before: Solution, after: Solution) -> bool {
    ||| exists|between: bool, cycle: CycleId, p: int, q: int|
        draw_in_range(before, between, cycle, p, q) && #[trigger] drawn_outcome(before, nb, between, cycle, p, q, after)
    ||| exists|between: bool, cycle: CycleId|
        #[trigger] draw_impossible(before, between, cycle) && after.cycle1@ == before.cycle1@ && after.cycle2@
            == before.cycle2@
}

/// `chain` leads from `first` to `last` in `k` draws.
pub open spec fn is_draw_chain(nb: NeighborhoodType, chain: Seq<Solution>, k: int, first: Solution, last: Solution) -> bool {
    &&& chain.len() == k + 1
    &&& chain[0].cycle1@ == first.cycle1@ && chain[0].cycle2@ == first.cycle2@
    &&& chain[k].cycle1@ == last.cycle1@ && chain[k].cycle2@ == last.cycle2@
    &&& forall|i: int| 0 <= i < k ==> #[trigger] is_drawn_step(nb, chain[i], chain[i + 1])
}

/// The move a draw names: with `between`, the exchange of position `p` of
/// the first tour with position `q` of the second; otherwise the move of
/// `neighborhood` between positions `p` and `q` of the tour `cycle`.
pub open spec fn drawn_move(
    sol: Solution,
    nb: NeighborhoodType,
    between: bool,
    cycle: CycleId,
    p: int,
    q: int,
) -> Option<Move> {
    let c = sol.cycle_of(cycle);
    let n = c.len() as int;
    if between {
        if 0 <= p < sol.cycle1@.len() && 0 <= q < sol.cycle2@.len() {
            Some(Move::InterRouteExchange { v1: sol.cycle1@[p], v2: sol.cycle2@[q] })
        } else {
            None
        }
    } else {
        match nb {
            NeighborhoodType::VertexExchange => if n >= 2 && p != q && 0 <= p < n && 0 <= q < n {
                Some(
                    Move::IntraRouteVertexExchange {
                        v1: c[if p < q { p } else { q }],
                        v2: c[if p < q { q } else { p }],
                        cycle,
                    },
                )
            } else {
                None
            },
            NeighborhoodType::EdgeExchange => if n >= 3 && 0 <= p < n && 0 <= q < n && p != q
                && crate::cost::next_index(p, n) != q && crate::cost::next_index(q, n) != p {
                Some(
                    Move::IntraRouteEdgeExchange {
                        a: c[p],
                        b: c[crate::cost::next_index(p, n)],
                        c: c[q],
                        d: c[crate::cost::next_index(q, n)],
                        cycle,
                    },
                )
            } else {
                None
            },
        }
    }
}

/// Applies the move that a draw names, whatever its delta; a draw that
/// names no move changes nothing.
pub fn apply_drawn_move(
    solution: &mut Solution,
    instance: &TsplibInstance,
    neighborhood: NeighborhoodType,
    between: bool,
    cycle: CycleId,
    p: usize,
    q: usize,
)
    requires
        instance.wf(),
        old(solution).is_valid_for(instance.dimension as int),
    ensures
        final(solution).is_valid_for(instance.dimension as int),
        match drawn_move(*old(solution), neighborhood, between, cycle, p as int, q as int) {
            Some(mv) => (final(solution).cycle1@, final(solution).cycle2@) == crate::moves::apply_spec(
                old(solution).cycle1@,
                old(solution).cycle2@,
                mv,
            ),
            None => final(solution).cycle1@ == old(solution).cycle1@ && final(solution).cycle2@ == old(
                solution,
            ).cycle2@,
        },
{
    let ghost n = instance.dimension as int;
    let found = if between {
        crate::moves::evaluate_inter_route_exchange(solution, instance, p, q)
    } else {
        match neighborhood {
            NeighborhoodType::VertexExchange => crate::moves::evaluate_intra_route_vertex_exchange(
                solution,
                instance,
                cycle,
                p,
                q,
            ),
            NeighborhoodType::EdgeExchange => crate::moves::evaluate_intra_route_edge_exchange(
                solution,
                instance,
                cycle,
                p,
                q,
            ),
        }
    };
    if let Some(em) = found {
        proof {
            crate::moves::lemma_apply_preserves(solution.cycle1@, solution.cycle2@, em.move_type, n);
        }
        em.move_type.apply(solution);
    }
}

/// The edge of `c` that starts at position `i` is in neither tour of
/// `other`, in either direction.
pub open spec fn is_foreign_edge(c: Seq<usize>, other: Solution, i: int) -> bool {
    let a = c[i];
    let b = c[crate::cost::next_index(i, c.len() as int)];
    !crate::tsplib::has_undirected_edge(other.cycle1@, a, b) && !crate::tsplib::has_undirected_edge(
        other.cycle2@,
        a,
        b,
    )
}

/// `x` is an end of an edge of `c` that `other` lacks.
pub open spec fn ends_foreign_edge(c: Seq<usize>, other: Solution, x: usize) -> bool {
    exists|i: int|
        0 <= i < c.len() && #[trigger] is_foreign_edge(c, other, i) && (x == c[i] || x == c[crate::cost::next_index(
            i,
            c.len() as int,
        )])
}

/// The nodes removed from a copy of `p1` when it is recombined with `p2`:
/// the ends of every edge of `p1` that `p2` lacks, and the nodes marked in
/// `extra`.
pub open spec fn recombination_marks(p1: Solution, p2: Solution, extra: Seq<bool>, n: int) -> Seq<bool> {
    Seq::new(
        n as nat,
        |x: int|
            is_marked(extra, x as usize) || ends_foreign_edge(p1.cycle1@, p2, x as usize) || ends_foreign_edge(
                p1.cycle2@,
                p2,
                x as usize,
            ),
    )
}

/// `child` is what recombining `p1` with `p2` gives for some random marks.
pub open spec fn is_recombination(instance: &TsplibInstance, p1: Solution, p2: Solution, child: Solution) -> bool {
    exists|extra: Seq<bool>|
        #[trigger] destroyed_and_repaired(
            instance,
            p1,
            recombination_marks(p1, p2, extra, instance.dimension as int),
            child,
        )
}

/// The child of two parents for given random marks: a copy of `p1` from
/// which the ends of every edge that `p2` lacks, and the nodes marked in
/// `extra`, are removed and then reinserted by weighted regret.
pub fn recombine_with_marks(p1: &Solution, p2: &Solution, instance: &TsplibInstance, extra: &Vec<bool>) -> (r: Solution)
    requires
        instance.wf(),
        p1.is_valid_for(instance.dimension as int),
    ensures
        r.is_valid_for(instance.dimension as int),
        ({
            let marks = recombination_marks(*p1, *p2, extra@, instance.dimension as int);
            (r.cycle1@, r.cycle2@) == repair_spec(
                instance.matrix(),
                p1.cycle1@.filter(unmarked(marks)),
                p1.cycle2@.filter(unmarked(marks)),
                (instance.dimension as int + 1) / 2,
                instance.dimension as int / 2,
                p1.cycle1@.filter(marked_in(marks)) + p1.cycle2@.filter(marked_in(marks)),
            )
        }),
{
    let n = instance.dimension;
    let mut child = p1.duplicate();
    let mut marked: Vec<bool> = Vec::new();
    let mut k: usize = 0;
    while k < n
        invariant
            0 <= k <= n,
            marked@.len() == k,
            forall|x: int| 0 <= x < k ==> #[trigger] marked@[x] == is_marked(extra@, x as usize),
        decreases n - k,
    {
        let e = k < extra.len() && extra[k];
        marked.push(e);
        k += 1;
    }
    mark_foreign_edges(&child.cycle1, p2, &mut marked);
    mark_foreign_edges(&child.cycle2, p2, &mut marked);
    assert(marked@ =~= recombination_marks(*p1, *p2, extra@, n as int));
    destroy_and_repair(&mut child, instance, &marked);
    child
}

/// The child of two parents: a copy of `p1` from which the nodes of every
/// edge that `p2` lacks, and each other node with chance 1 in 5, are
/// removed and then reinserted by weighted regret.
pub fn recombine(p1: &Solution, p2: &Solution, instance: &TsplibInstance, rng: &mut StdRng) -> (r: Solution)
    requires
        instance.wf(),
        p1.is_valid_for(instance.dimension as int),
    ensures
        r.is_valid_for(instance.dimension as int),
        is_recombination(instance, *p1, *p2, r),
{
    let n = instance.dimension;
    let mut extra: Vec<bool> = Vec::new();
    let mut v: usize = 0;
    while v < n
        invariant
            extra@.len() == v,
            v <= n,
        decreases n - v,
    {
        extra.push(random_ratio(rng, 1, 5));
        v += 1;
    }
    let child = recombine_with_marks(p1, p2, instance, &extra);
    assert(destroyed_and_repaired(
        instance,
        *p1,
        recombination_marks(*p1, *p2, extra@, instance.dimension as int),
        child,
    ));
    child
}

/// Marks both ends of every edge of `cycle` that `other` lacks in either
/// direction.
fn mark_foreign_edges(cycle: &Vec<usize>, other: &Solution, marked: &mut Vec<bool>)
    ensures
        final(marked)@.len() == old(marked)@.len(),
        forall|x: int|
            0 <= x < old(marked)@.len() ==> #[trigger] final(marked)@[x] == (old(marked)@[x] || ends_foreign_edge(
                cycle@,
                *other,
                x as usize,
            )),
{
    let ghost m0 = marked@;
    let len = cycle.len();
    let mut i: usize = 0;
    while i < len
        invariant
            len == cycle@.len(),
            marked@.len() == m0.len(),
            0 <= i <= len,
            forall|x: int|
                0 <= x < m0.len() ==> #[trigger] marked@[x] == (m0[x] || exists|j: int|
                    0 <= j < i && #[trigger] is_foreign_edge(cycle@, *other, j) && (x as usize == cycle@[j] || x as usize
                        == cycle@[crate::cost::next_index(j, len as int)])),
        decreases len - i,
    {
        let a = cycle[i];
        let b = cycle[if i + 1 == len { 0 } else { i + 1 }];
        let ghost before = marked@;
        assert(b == cycle@[crate::cost::next_index(i as int, len as int)]);
        let found = other.has_edge(a, b);
        let foreign = found.is_none();
        assert(foreign == is_foreign_edge(cycle@, *other, i as int)) by {
            match found {
                Some(CycleId::Cycle1) => {},
                Some(CycleId::Cycle2) => {},
                None => {},
            }
        }
        if foreign {
            if a < marked.len() {
                marked.set(a, true);
            }
            if b < marked.len() {
                marked.set(b, true);
            }
        }
        assert forall|x: int|
            0 <= x < m0.len() implies #[trigger] marked@[x] == (m0[x] || exists|j: int|
                0 <= j < i + 1 && #[trigger] is_foreign_edge(cycle@, *other, j) && (x as usize == cycle@[j] || x as usize
                    == cycle@[crate::cost::next_index(j, len as int)])) by {
            if foreign && (x as usize == a || x as usize == b) {
                assert(is_foreign_edge(cycle@, *other, i as int));
            } else {
                assert(marked@[x] == before[x]);
                if exists|j: int|
                    0 <= j < i + 1 && #[trigger] is_foreign_edge(cycle@, *other, j) && (x as usize == cycle@[j] || x as usize
                        == cycle@[crate::cost::next_index(j, len as int)]) {
                    let j = choose|j: int|
                        0 <= j < i + 1 && #[trigger] is_foreign_edge(cycle@, *other, j) && (x as usize == cycle@[j] || x as usize
                            == cycle@[crate::cost::next_index(j, len as int)]);
                    if j == i {
                        assert(!foreign || (x as usize != a && x as usize != b));
                    }
                }
            }
        }
        i += 1;
    }
}

pub proof fn lemma_filter_all(s: Seq<usize>, pred: spec_fn(usize) -> bool)
    requires
        forall|i: int| 0 <= i < s.len() ==> pred(#[trigger] s[i]),
    ensures
        s.filter(pred) == s,
    decreases s.len(),
{
    reveal(Seq::filter);
    if s.len() > 0 {
        lemma_filter_all(s.drop_last(), pred);
        assert(s.drop_last().push(s.last()) =~= s);
    }
}

pub proof fn lemma_filter_none(s: Seq<usize>, pred: spec_fn(usize) -> bool)
    requires
        forall|i: int| 0 <= i < s.len() ==> !pred(#[trigger] s[i]),
    ensures
        s.filter(pred) == Seq::<usize>::empty(),
    decreases s.len(),
{
    reveal(Seq::filter);
    if s.len() > 0 {
        lemma_filter_none(s.drop_last(), pred);
    }
}

/// No edge of a solution is foreign to the solution itself.
proof fn lemma_no_foreign_edge(c: Seq<usize>, p: Solution, x: usize)
    requires
        c == p.cycle1@ || c == p.cycle2@,
    ensures
        !ends_foreign_edge(c, p, x),
{
    assert forall|i: int| 0 <= i < c.len() implies !#[trigger] is_foreign_edge(c, p, i) by {
        let a = c[i];
        let b = c[crate::cost::next_index(i, c.len() as int)];
        assert(crate::tsplib::has_directed_edge(c, a, b));
    }
}

/// Recombining a solution with itself, with no node drawn at random, gives
/// the solution back: no node is removed, and repairing nothing changes
/// nothing.
pub proof fn lemma_recombine_same_parent(instance: &TsplibInstance, p: Solution)
    requires
        instance.wf(),
        p.is_valid_for(instance.dimension as int),
    ensures
        destroyed_and_repaired(
            instance,
            p,
            recombination_marks(p, p, Seq::empty(), instance.dimension as int),
            p,
        ),
{
    let n = instance.dimension as int;
    let marks = recombination_marks(p, p, Seq::empty(), n);
    assert forall|x: usize| !#[trigger] is_marked(marks, x) by {
        if x < n {
            lemma_no_foreign_edge(p.cycle1@, p, x);
            lemma_no_foreign_edge(p.cycle2@, p, x);
        }
    }
    lemma_filter_all(p.cycle1@, unmarked(marks));
    lemma_filter_all(p.cycle2@, unmarked(marks));
    lemma_filter_none(p.cycle1@, marked_in(marks));
    lemma_filter_none(p.cycle2@, marked_in(marks));
    assert(Seq::<usize>::empty() + Seq::<usize>::empty() =~= Seq::<usize>::empty());
}

} // verus!
