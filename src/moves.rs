//! Moves of the two-tour neighbourhood, their exact length deltas, and their
//! application to a solution.

use vstd::prelude::*;
use crate::cost::{
    cycle_cost, dist, lemma_replace_cost, lemma_reverse_segment_cost, next_index,
    nodes_below, prev_index, replace_delta, reverse_segment, wrap,
};
use crate::tsplib::{CycleId, Solution, TsplibInstance};

verus! {

/// A move of the neighbourhood, named by the nodes it touches.
#[derive(Debug, Clone, Copy, PartialEq, Eq, Hash, Structural)]
pub enum Move {
    /// Swap a node of one tour with a node of the other.
    InterRouteExchange { v1: usize, v2: usize },
    /// Swap the positions of two nodes of the same tour.
    IntraRouteVertexExchange { v1: usize, v2: usize, cycle: CycleId },
    /// Replace the edges `(a, b)` and `(c, d)` of a tour with `(a, c)` and
    /// `(b, d)`, reversing the stretch from `b` to `c`.
    IntraRouteEdgeExchange { a: usize, b: usize, c: usize, d: usize, cycle: CycleId },
}

/// A move together with the change in total length it causes.
#[derive(Debug, Clone, Copy)]
pub struct EvaluatedMove {
    pub move_type: Move,
    pub delta: i32,
}

/// Position of `v` in `s`, or -1.
pub open spec fn pos_of(s: Seq<usize>, v: usize) -> int {
    if s.contains(v) {
        choose|i: int| 0 <= i < s.len() && #[trigger] s[i] == v
    } else {
        -1
    }
}

/// `s` with the entries at `i` and `j` exchanged.
pub open spec fn swap_entries(s: Seq<usize>, i: int, j: int) -> Seq<usize> {
    s.update(i, s[j]).update(j, s[i])
}

/// Number of positions from `pb` to `pc` inclusive, going forward round a
/// cycle of length `n`.
pub open spec fn segment_len(n: int, pb: int, pc: int) -> int {
    if pb <= pc {
        pc - pb + 1
    } else {
        n - pb + pc + 1
    }
}

pub open spec fn pick(c1: Seq<usize>, c2: Seq<usize>, id: CycleId) -> Seq<usize> {
    match id {
        CycleId::Cycle1 => c1,
        CycleId::Cycle2 => c2,
    }
}

pub open spec fn put(c1: Seq<usize>, c2: Seq<usize>, id: CycleId, c: Seq<usize>) -> (Seq<usize>, Seq<usize>) {
    match id {
        CycleId::Cycle1 => (c, c2),
        CycleId::Cycle2 => (c1, c),
    }
}

/// The two tours after `mv` is applied to `(c1, c2)`; a move whose nodes are
/// not where it expects them leaves the tours as they are.
pub open spec fn apply_spec(c1: Seq<usize>, c2: Seq<usize>, mv: Move) -> (Seq<usize>, Seq<usize>) {
    match mv {
        Move::InterRouteExchange { v1, v2 } => {
            if c1.contains(v1) && c2.contains(v2) {
                (c1.update(pos_of(c1, v1), v2), c2.update(pos_of(c2, v2), v1))
            } else if c2.contains(v1) && c1.contains(v2) {
                (c1.update(pos_of(c1, v2), v1), c2.update(pos_of(c2, v1), v2))
            } else {
                (c1, c2)
            }
        },
        Move::IntraRouteVertexExchange { v1, v2, cycle } => {
            let c = pick(c1, c2, cycle);
            if c.contains(v1) && c.contains(v2) {
                put(c1, c2, cycle, swap_entries(c, pos_of(c, v1), pos_of(c, v2)))
            } else {
                (c1, c2)
            }
        },
        Move::IntraRouteEdgeExchange { a, b, c: cn, d, cycle } => {
            let c = pick(c1, c2, cycle);
            if c.contains(b) && c.contains(cn) && c.len() >= 2 {
                let pb = pos_of(c, b);
                put(c1, c2, cycle, reverse_segment(c, pb, segment_len(c.len() as int, pb, pos_of(c, cn))))
            } else {
                (c1, c2)
            }
        },
    }
}

pub open spec fn pair_cost(m: Seq<Seq<i32>>, p: (Seq<usize>, Seq<usize>)) -> int {
    cycle_cost(m, p.0) + cycle_cost(m, p.1)
}

/// The delta of `em` is exactly the change of total length that applying
/// its move to `sol` causes.
pub open spec fn delta_is_exact(em: EvaluatedMove, m: Seq<Seq<i32>>, sol: Solution) -> bool {
    em.delta == pair_cost(m, apply_spec(sol.cycle1@, sol.cycle2@, em.move_type)) - sol.total_cost(m)
}

/// Applying a move whose delta is exact changes the total length by that
/// delta.
pub proof fn lemma_apply_cost(em: EvaluatedMove, m: Seq<Seq<i32>>, before: Solution, after: Solution)
    requires
        delta_is_exact(em, m, before),
        (after.cycle1@, after.cycle2@) == apply_spec(before.cycle1@, before.cycle2@, em.move_type),
    ensures
        after.total_cost(m) == before.total_cost(m) + em.delta,
{
}

pub proof fn lemma_pos_of(s: Seq<usize>, p: int)
    requires
        s.no_duplicates(),
        0 <= p < s.len(),
    ensures
        s.contains(s[p]),
        pos_of(s, s[p]) == p,
{
    assert(s.contains(s[p]));
}

pub proof fn lemma_split_distinct(c1: Seq<usize>, c2: Seq<usize>)
    requires
        (c1 + c2).no_duplicates(),
    ensures
        c1.no_duplicates(),
        c2.no_duplicates(),
        forall|x: usize| c1.contains(x) ==> !#[trigger] c2.contains(x),
{
    let all = c1 + c2;
    assert forall|i: int, j: int| 0 <= i < c1.len() && 0 <= j < c1.len() && i != j implies c1[i] != c1[j] by {
        assert(all[i] == c1[i] && all[j] == c1[j]);
    }
    assert forall|i: int, j: int| 0 <= i < c2.len() && 0 <= j < c2.len() && i != j implies c2[i] != c2[j] by {
        assert(all[c1.len() + i] == c2[i] && all[c1.len() + j] == c2[j]);
    }
    assert forall|x: usize| c1.contains(x) implies !#[trigger] c2.contains(x) by {
        if c2.contains(x) {
            let i = choose|i: int| 0 <= i < c1.len() && #[trigger] c1[i] == x;
            let j = choose|j: int| 0 <= j < c2.len() && #[trigger] c2[j] == x;
            assert(all[i] == all[c1.len() + j]);
        }
    }
}

/// A sequence whose entries are those of `s` taken through an injective map
/// of positions keeps `s`'s distinctness and range.
pub proof fn lemma_permuted(s: Seq<usize>, t: Seq<usize>, f: spec_fn(int) -> int, n: int)
    requires
        s.len() == t.len(),
        forall|i: int| 0 <= i < t.len() ==> 0 <= #[trigger] f(i) < s.len() && t[i] == s[f(i)],
        forall|i: int, j: int| 0 <= i < t.len() && 0 <= j < t.len() && i != j ==> #[trigger] f(i) != #[trigger] f(j),
    ensures
        s.no_duplicates() ==> t.no_duplicates(),
        nodes_below(s, n) ==> nodes_below(t, n),
        forall|x: usize| t.contains(x) ==> #[trigger] s.contains(x),
{
    assert forall|x: usize| t.contains(x) implies #[trigger] s.contains(x) by {
        let i = choose|i: int| 0 <= i < t.len() && t[i] == x;
        assert(s[f(i)] == x);
    }
    if nodes_below(s, n) {
        assert forall|k: int| 0 <= k < t.len() implies #[trigger] t[k] < n by {
            assert(s[f(k)] < n);
        }
    }
    if s.no_duplicates() {
        assert forall|i: int, j: int| 0 <= i < t.len() && 0 <= j < t.len() && i != j implies t[i]
            != t[j] by {
            assert(f(i) != f(j));
            assert(t[i] == s[f(i)] && t[j] == s[f(j)]);
        }
    }
}

impl Solution {
    /// No node occurs twice across the two tours.
    pub open spec fn distinct(&self) -> bool {
        (self.cycle1@ + self.cycle2@).no_duplicates()
    }
}

/// Exchanging two entries keeps distinctness and range.
pub proof fn lemma_swap_entries(s: Seq<usize>, p: int, q: int, n: int)
    requires
        0 <= p < s.len(),
        0 <= q < s.len(),
    ensures
        s.no_duplicates() ==> swap_entries(s, p, q).no_duplicates(),
        nodes_below(s, n) ==> nodes_below(swap_entries(s, p, q), n),
{
    let f = |i: int| if i == p { q } else if i == q { p } else { i };
    lemma_permuted(s, swap_entries(s, p, q), f, n);
}

pub proof fn lemma_concat_below(c1: Seq<usize>, c2: Seq<usize>, n: int)
    ensures
        nodes_below(c1 + c2, n) <==> nodes_below(c1, n) && nodes_below(c2, n),
{
    let all = c1 + c2;
    if nodes_below(all, n) {
        assert forall|k: int| 0 <= k < c1.len() implies #[trigger] c1[k] < n by {
            assert(all[k] == c1[k]);
        }
        assert forall|k: int| 0 <= k < c2.len() implies #[trigger] c2[k] < n by {
            assert(all[c1.len() + k] == c2[k]);
        }
    }
    if nodes_below(c1, n) && nodes_below(c2, n) {
        assert forall|k: int| 0 <= k < all.len() implies #[trigger] all[k] < n by {
            if k >= c1.len() {
                assert(all[k] == c2[k - c1.len()]);
            }
        }
    }
}

/// Writing a new tour in place of one of `(c1, c2)` and joining the two is
/// the same as writing it into the joined sequence.
pub proof fn lemma_put_concat(c1: Seq<usize>, c2: Seq<usize>, id: CycleId, c: Seq<usize>)
    requires
        c.len() == pick(c1, c2, id).len(),
    ensures
        ({
            let r = put(c1, c2, id, c);
            let base = if id == CycleId::Cycle1 { 0 } else { c1.len() as int };
            &&& r.0 + r.1 =~= Seq::new((c1 + c2).len(), |i: int|
                if base <= i < base + c.len() { c[i - base] } else { (c1 + c2)[i] })
        }),
{
}

proof fn lemma_apply_inter(c1: Seq<usize>, c2: Seq<usize>, v1: usize, v2: usize, n: int)
    requires
        (c1 + c2).no_duplicates(),
    ensures
        ({
            let r = apply_spec(c1, c2, Move::InterRouteExchange { v1, v2 });
            &&& r.0.len() == c1.len()
            &&& r.1.len() == c2.len()
            &&& (r.0 + r.1).no_duplicates()
            &&& nodes_below(c1 + c2, n) ==> nodes_below(r.0 + r.1, n)
        }),
{
    let r = apply_spec(c1, c2, Move::InterRouteExchange { v1, v2 });
    let all = c1 + c2;
    let l1 = c1.len() as int;
    if c1.contains(v1) && c2.contains(v2) {
        let p = pos_of(c1, v1);
        let q = l1 + pos_of(c2, v2);
        assert(r.0 + r.1 =~= swap_entries(all, p, q));
        lemma_swap_entries(all, p, q, n);
    } else if c2.contains(v1) && c1.contains(v2) {
        let p = pos_of(c1, v2);
        let q = l1 + pos_of(c2, v1);
        assert(r.0 + r.1 =~= swap_entries(all, p, q));
        lemma_swap_entries(all, p, q, n);
    }
}

proof fn lemma_apply_vertex(c1: Seq<usize>, c2: Seq<usize>, v1: usize, v2: usize, cycle: CycleId, n: int)
    requires
        (c1 + c2).no_duplicates(),
    ensures
        ({
            let r = apply_spec(c1, c2, Move::IntraRouteVertexExchange { v1, v2, cycle });
            &&& r.0.len() == c1.len()
            &&& r.1.len() == c2.len()
            &&& (r.0 + r.1).no_duplicates()
            &&& nodes_below(c1 + c2, n) ==> nodes_below(r.0 + r.1, n)
        }),
{
    let r = apply_spec(c1, c2, Move::IntraRouteVertexExchange { v1, v2, cycle });
    let all = c1 + c2;
    let l1 = c1.len() as int;
    let c = pick(c1, c2, cycle);
    if c.contains(v1) && c.contains(v2) {
        let base = if cycle == CycleId::Cycle1 { 0 } else { l1 };
        let p = pos_of(c, v1);
        let q = pos_of(c, v2);
        lemma_put_concat(c1, c2, cycle, swap_entries(c, p, q));
        assert(r.0 + r.1 =~= swap_entries(all, base + p, base + q));
        lemma_swap_entries(all, base + p, base + q, n);
    }
}

proof fn lemma_apply_edge(
    c1: Seq<usize>,
    c2: Seq<usize>,
    a: usize,
    b: usize,
    cn: usize,
    d: usize,
    cycle: CycleId,
    n: int,
)
    requires
        (c1 + c2).no_duplicates(),
    ensures
        ({
            let r = apply_spec(c1, c2, Move::IntraRouteEdgeExchange { a, b, c: cn, d, cycle });
            &&& r.0.len() == c1.len()
            &&& r.1.len() == c2.len()
            &&& (r.0 + r.1).no_duplicates()
            &&& nodes_below(c1 + c2, n) ==> nodes_below(r.0 + r.1, n)
        }),
{
    let r = apply_spec(c1, c2, Move::IntraRouteEdgeExchange { a, b, c: cn, d, cycle });
    let all = c1 + c2;
    let l1 = c1.len() as int;
    let c = pick(c1, c2, cycle);
    if c.contains(b) && c.contains(cn) && c.len() >= 2 {
        let base = if cycle == CycleId::Cycle1 { 0 } else { l1 };
        let len = c.len() as int;
        let pb = pos_of(c, b);
        let sl = segment_len(len, pb, pos_of(c, cn));
        let rc = reverse_segment(c, pb, sl);
        lemma_put_concat(c1, c2, cycle, rc);
        let f = |i: int|
            if base <= i < base + len {
                let t = i - base;
                let o = if t >= pb { t - pb } else { t + len - pb };
                if o < sl {
                    base + wrap(pb + sl - 1 - o, len)
                } else {
                    i
                }
            } else {
                i
            };
        let rall = r.0 + r.1;
        assert forall|i: int| 0 <= i < rall.len() implies 0 <= #[trigger] f(i) < all.len() && rall[i]
            == all[f(i)] by {
            if base <= i < base + len {
                assert(all[base + (i - base)] == c[i - base]);
                let t = i - base;
                let o = if t >= pb { t - pb } else { t + len - pb };
                if o < sl {
                    assert(all[base + wrap(pb + sl - 1 - o, len)] == c[wrap(pb + sl - 1 - o, len)]);
                }
            }
        }
        lemma_permuted(all, rall, f, n);
    }
}

/// Applying a move keeps the tour lengths, and keeps the tours well formed.
pub proof fn lemma_apply_preserves(c1: Seq<usize>, c2: Seq<usize>, mv: Move, n: int)
    requires
        (c1 + c2).no_duplicates(),
    ensures
        ({
            let r = apply_spec(c1, c2, mv);
            &&& r.0.len() == c1.len()
            &&& r.1.len() == c2.len()
            &&& (r.0 + r.1).no_duplicates()
            &&& nodes_below(c1, n) && nodes_below(c2, n) ==> nodes_below(r.0, n) && nodes_below(r.1, n)
        }),
{
    let r = apply_spec(c1, c2, mv);
    lemma_concat_below(c1, c2, n);
    match mv {
        Move::InterRouteExchange { v1, v2 } => lemma_apply_inter(c1, c2, v1, v2, n),
        Move::IntraRouteVertexExchange { v1, v2, cycle } => lemma_apply_vertex(c1, c2, v1, v2, cycle, n),
        Move::IntraRouteEdgeExchange { a, b, c, d, cycle } => lemma_apply_edge(c1, c2, a, b, c, d, cycle, n),
    }
    lemma_concat_below(r.0, r.1, n);
}

/// Two distinct sequences with no common entry join into a distinct one.
pub proof fn lemma_join_distinct(c1: Seq<usize>, c2: Seq<usize>)
    requires
        c1.no_duplicates(),
        c2.no_duplicates(),
        forall|x: usize| c1.contains(x) ==> !#[trigger] c2.contains(x),
    ensures
        (c1 + c2).no_duplicates(),
{
    let all = c1 + c2;
    assert forall|i: int, j: int| 0 <= i < all.len() && 0 <= j < all.len() && i != j implies all[i]
        != all[j] by {
        if i < c1.len() && j >= c1.len() {
            assert(all[i] == c1[i]);
            assert(c1.contains(all[i]));
            assert(c2[j - c1.len()] == all[j]);
            assert(c2.contains(c2[j - c1.len()]));
        } else if i >= c1.len() && j < c1.len() {
            assert(all[j] == c1[j]);
            assert(c1.contains(all[j]));
            assert(c2[i - c1.len()] == all[i]);
            assert(c2.contains(c2[i - c1.len()]));
        }
    }
}

/// Position after `i` on a cycle of length `n`.
pub fn next_pos(i: usize, n: usize) -> (r: usize)
    requires
        i < n,
    ensures
        r == next_index(i as int, n as int),
{
    if i + 1 == n {
        0
    } else {
        i + 1
    }
}

/// Position before `i` on a cycle of length `n`.
pub fn prev_pos(i: usize, n: usize) -> (r: usize)
    requires
        i < n,
    ensures
        r == prev_index(i as int, n as int),
{
    if i == 0 {
        n - 1
    } else {
        i - 1
    }
}

/// Length change of writing `x` at position `p` of `c`, read off the edges
/// next to `p`.
fn replace_gain(c: &Vec<usize>, p: usize, x: usize, instance: &TsplibInstance) -> (r: i32)
    requires
        instance.wf(),
        nodes_below(c@, instance.dimension as int),
        x < instance.dimension,
        p < c@.len(),
    ensures
        r == replace_delta(instance.matrix(), c@, p as int, x),
{
    let n = c.len();
    if n == 1 {
        assert(c@[0] < instance.dimension);
        proof {
            assert(instance.matrix()[x as int][x as int] == 0);
            assert(instance.matrix()[c@[0] as int][c@[0] as int] == 0);
        }
        0
    } else {
        let prev = c[prev_pos(p, n)];
        let next = c[next_pos(p, n)];
        let v = c[p];
        instance.distance(prev, x) + instance.distance(x, next) - instance.distance(prev, v)
            - instance.distance(v, next)
    }
}

/// Exchange of the node at `pos1` of the first tour with the node at `pos2`
/// of the second.
pub fn evaluate_inter_route_exchange(
    solution: &Solution,
    instance: &TsplibInstance,
    pos1: usize,
    pos2: usize,
) -> (r: Option<EvaluatedMove>)
    requires
        instance.wf(),
        solution.well_formed(instance.dimension as int),
    ensures
        r is Some <==> pos1 < solution.cycle1@.len() && pos2 < solution.cycle2@.len(),
        r matches Some(em) ==> {
            &&& em.move_type == (Move::InterRouteExchange {
                v1: solution.cycle1@[pos1 as int],
                v2: solution.cycle2@[pos2 as int],
            })
            &&& delta_is_exact(em, instance.matrix(), *solution)
        },
{
    let c1 = &solution.cycle1;
    let c2 = &solution.cycle2;
    if pos1 >= c1.len() || pos2 >= c2.len() {
        return None;
    }
    let v1 = c1[pos1];
    let v2 = c2[pos2];
    let ghost m = instance.matrix();
    proof {
        lemma_split_distinct(c1@, c2@);
        lemma_pos_of(c1@, pos1 as int);
        lemma_pos_of(c2@, pos2 as int);
        lemma_replace_cost(m, c1@, pos1 as int, v2);
        lemma_replace_cost(m, c2@, pos2 as int, v1);
    }
    let delta = replace_gain(c1, pos1, v2, instance) + replace_gain(c2, pos2, v1, instance);
    Some(EvaluatedMove { move_type: Move::InterRouteExchange { v1, v2 }, delta })
}

/// Length change of exchanging the entries at `p < q` of the tour `c`.
#[verifier::rlimit(40)]
fn swap_gain(c: &Vec<usize>, p: usize, q: usize, instance: &TsplibInstance) -> (r: i32)
    requires
        instance.wf(),
        nodes_below(c@, instance.dimension as int),
        p < q < c@.len(),
    ensures
        r == cycle_cost(instance.matrix(), swap_entries(c@, p as int, q as int)) - cycle_cost(
            instance.matrix(),
            c@,
        ),
{
    let n = c.len();
    let v1 = c[p];
    let v2 = c[q];
    let ghost m = instance.matrix();
    let ghost s1 = c@.update(p as int, v2);
    proof {
        lemma_replace_cost(m, c@, p as int, v2);
        lemma_replace_cost(m, s1, q as int, v1);
        assert(swap_entries(c@, p as int, q as int) == s1.update(q as int, v1));
        assert(v1 < instance.dimension && v2 < instance.dimension);
        assert(m[v1 as int][v2 as int] == m[v2 as int][v1 as int]);
        assert(m[v1 as int][v1 as int] == 0 && m[v2 as int][v2 as int] == 0);
    }
    if n == 2 {
        0
    } else if q == p + 1 {
        let prev1 = c[prev_pos(p, n)];
        let next2 = c[next_pos(q, n)];
        assert(s1[prev_index(q as int, n as int)] == v2);
        assert(s1[prev_index(p as int, n as int)] == prev1);
        assert(s1[next_index(q as int, n as int)] == next2);
        (instance.distance(prev1, v2) + instance.distance(v2, v1) + instance.distance(v1, next2))
            - (instance.distance(prev1, v1) + instance.distance(v1, v2) + instance.distance(v2, next2))
    } else if p == 0 && q == n - 1 {
        let before = c[n - 2];
        let after = c[1];
        assert(s1[prev_index(q as int, n as int)] == before);
        assert(s1[next_index(q as int, n as int)] == v2);
        (instance.distance(before, v1) + instance.distance(v1, v2) + instance.distance(v2, after))
            - (instance.distance(before, v2) + instance.distance(v2, v1) + instance.distance(v1, after))
    } else {
        let prev1 = c[prev_pos(p, n)];
        let next1 = c[next_pos(p, n)];
        let prev2 = c[prev_pos(q, n)];
        let next2 = c[next_pos(q, n)];
        assert(s1[prev_index(q as int, n as int)] == prev2);
        assert(s1[next_index(q as int, n as int)] == next2);
        (instance.distance(prev1, v2) + instance.distance(v2, next1) + instance.distance(prev2, v1)
            + instance.distance(v1, next2)) - (instance.distance(prev1, v1) + instance.distance(
            v1,
            next1,
        ) + instance.distance(prev2, v2) + instance.distance(v2, next2))
    }
}

/// Exchange of the nodes at `pos1` and `pos2` of one tour.
pub fn evaluate_intra_route_vertex_exchange(
    solution: &Solution,
    instance: &TsplibInstance,
    cycle: CycleId,
    pos1: usize,
    pos2: usize,
) -> (r: Option<EvaluatedMove>)
    requires
        instance.wf(),
        solution.well_formed(instance.dimension as int),
    ensures
        r is Some <==> ({
            let c = solution.cycle_of(cycle);
            c.len() >= 2 && pos1 != pos2 && pos1 < c.len() && pos2 < c.len()
        }),
        r matches Some(em) ==> {
            let c = solution.cycle_of(cycle);
            let lo = if pos1 < pos2 { pos1 } else { pos2 };
            let hi = if pos1 < pos2 { pos2 } else { pos1 };
            &&& em.move_type == (Move::IntraRouteVertexExchange {
                v1: c[lo as int],
                v2: c[hi as int],
                cycle,
            })
            &&& delta_is_exact(em, instance.matrix(), *solution)
        },
{
    let c = solution.get_cycle(cycle);
    let n = c.len();
    if n < 2 || pos1 == pos2 || pos1 >= n || pos2 >= n {
        return None;
    }
    let (p, q) = if pos1 < pos2 {
        (pos1, pos2)
    } else {
        (pos2, pos1)
    };
    let v1 = c[p];
    let v2 = c[q];
    proof {
        lemma_split_distinct(solution.cycle1@, solution.cycle2@);
        lemma_pos_of(c@, p as int);
        lemma_pos_of(c@, q as int);
    }
    let delta = swap_gain(c, p, q, instance);
    Some(EvaluatedMove { move_type: Move::IntraRouteVertexExchange { v1, v2, cycle }, delta })
}

/// 2-opt on one tour: remove the edges that start at `pos1` and at `pos2`,
/// `(a, b)` and `(c, d)`, and add `(a, c)` and `(b, d)`.
pub fn evaluate_intra_route_edge_exchange(
    solution: &Solution,
    instance: &TsplibInstance,
    cycle: CycleId,
    pos1: usize,
    pos2: usize,
) -> (r: Option<EvaluatedMove>)
    requires
        instance.wf(),
        solution.well_formed(instance.dimension as int),
    ensures
        r is Some <==> ({
            let n = solution.cycle_of(cycle).len() as int;
            &&& n >= 3
            &&& pos1 < n && pos2 < n && pos1 != pos2
            &&& next_index(pos1 as int, n) != pos2
            &&& next_index(pos2 as int, n) != pos1
        }),
        r matches Some(em) ==> {
            let c = solution.cycle_of(cycle);
            let n = c.len() as int;
            &&& em.move_type == (Move::IntraRouteEdgeExchange {
                a: c[pos1 as int],
                b: c[next_index(pos1 as int, n)],
                c: c[pos2 as int],
                d: c[next_index(pos2 as int, n)],
                cycle,
            })
            &&& em.delta == dist(instance.matrix(), c[pos1 as int], c[pos2 as int]) + dist(
                instance.matrix(),
                c[next_index(pos1 as int, n)],
                c[next_index(pos2 as int, n)],
            ) - dist(instance.matrix(), c[pos1 as int], c[next_index(pos1 as int, n)]) - dist(
                instance.matrix(),
                c[pos2 as int],
                c[next_index(pos2 as int, n)],
            )
            &&& delta_is_exact(em, instance.matrix(), *solution)
        },
{
    let cv = solution.get_cycle(cycle);
    let n = cv.len();
    if n < 3 || pos1 >= n || pos2 >= n || pos1 == pos2 || next_pos(pos1, n) == pos2 || next_pos(pos2, n)
        == pos1 {
        return None;
    }
    let pb = next_pos(pos1, n);
    let pd = next_pos(pos2, n);
    let a = cv[pos1];
    let b = cv[pb];
    let c = cv[pos2];
    let d = cv[pd];
    let ghost m = instance.matrix();
    proof {
        lemma_split_distinct(solution.cycle1@, solution.cycle2@);
        lemma_pos_of(cv@, pb as int);
        lemma_pos_of(cv@, pos2 as int);
        let sl = segment_len(n as int, pb as int, pos2 as int);
        lemma_reverse_segment_cost(m, cv@, pb as int, sl);
    }
    let cost_removed = instance.distance(a, b) + instance.distance(c, d);
    let cost_added = instance.distance(a, c) + instance.distance(b, d);
    Some(EvaluatedMove {
        move_type: Move::IntraRouteEdgeExchange { a, b, c, d, cycle },
        delta: cost_added - cost_removed,
    })
}

/// 2-opt seen from two nodes `a` (at `pos_a`) and `b` (at `pos_b`) of one tour:
/// remove `(a, a_next)` and `(b, b_next)`, add `(a, b)` and `(a_next, b_next)`.
/// It is the move that `evaluate_intra_route_edge_exchange` gives for the same
/// positions.
pub fn evaluate_candidate_intra_route_edge_exchange(
    solution: &Solution,
    instance: &TsplibInstance,
    cycle_id: CycleId,
    pos_a: usize,
    pos_b: usize,
) -> (r: Option<EvaluatedMove>)
    requires
        instance.wf(),
        solution.well_formed(instance.dimension as int),
    ensures
        r is Some <==> ({
            let n = solution.cycle_of(cycle_id).len() as int;
            &&& n >= 3
            &&& pos_a < n && pos_b < n && pos_a != pos_b
            &&& next_index(pos_a as int, n) != pos_b
            &&& next_index(pos_b as int, n) != pos_a
        }),
        r matches Some(em) ==> {
            let c = solution.cycle_of(cycle_id);
            let n = c.len() as int;
            &&& em.move_type == (Move::IntraRouteEdgeExchange {
                a: c[pos_a as int],
                b: c[next_index(pos_a as int, n)],
                c: c[pos_b as int],
                d: c[next_index(pos_b as int, n)],
                cycle: cycle_id,
            })
            &&& delta_is_exact(em, instance.matrix(), *solution)
        },
{
    evaluate_intra_route_edge_exchange(solution, instance, cycle_id, pos_a, pos_b)
}

/// Exchanges the entries at `i` and `j` of `v`.
fn swap_in(v: &mut Vec<usize>, i: usize, j: usize)
    requires
        i < old(v)@.len(),
        j < old(v)@.len(),
    ensures
        final(v)@ == swap_entries(old(v)@, i as int, j as int),
{
    let x = v[i];
    let y = v[j];
    v.set(i, y);
    v.set(j, x);
}

/// Reverses, in place, the `len` entries of `v` from `start` on, going round
/// the end of `v`.
fn reverse_in(v: &mut Vec<usize>, start: usize, len: usize)
    requires
        start < old(v)@.len(),
        1 <= len <= old(v)@.len(),
    ensures
        final(v)@ == reverse_segment(old(v)@, start as int, len as int),
{
    let ghost orig = v@;
    let n = v.len();
    let half = len / 2;
    let mut k: usize = 0;
    while k < half
        invariant
            n == v@.len(),
            orig.len() == n,
            start < n,
            1 <= len <= n,
            half == len / 2,
            0 <= k <= half,
            forall|t: int|
                0 <= t < n ==> #[trigger] v@[t] == ({
                    let o = if t >= start {
                        t - start
                    } else {
                        t + n - start
                    };
                    if o < k || (len - k <= o < len) {
                        orig[wrap(start + len - 1 - o, n as int)]
                    } else {
                        orig[t]
                    }
                }),
        decreases half - k,
    {
        let i = if k < n - start {
            start + k
        } else {
            k - (n - start)
        };
        let off = len - 1 - k;
        let j = if off < n - start {
            start + off
        } else {
            off - (n - start)
        };
        let x = v[i];
        let y = v[j];
        v.set(i, y);
        v.set(j, x);
        k += 1;
    }
    assert(v@ =~= reverse_segment(orig, start as int, len as int));
}

impl Move {
    /// Applies the move to `solution` in place, locating its nodes first; a
    /// move whose nodes are not where it expects them changes nothing.
    pub fn apply(&self, solution: &mut Solution)
        requires
            old(solution).distinct(),
        ensures
            (final(solution).cycle1@, final(solution).cycle2@) == apply_spec(
                old(solution).cycle1@,
                old(solution).cycle2@,
                *self,
            ),
    {
        let ghost c1 = solution.cycle1@;
        let ghost c2 = solution.cycle2@;
        proof {
            lemma_split_distinct(c1, c2);
        }
        match *self {
            Move::InterRouteExchange { v1, v2 } => {
                let f1 = solution.find_node(v1);
                let f2 = solution.find_node(v2);
                match (f1, f2) {
                    (Some((CycleId::Cycle1, p1)), Some((CycleId::Cycle2, p2))) => {
                        proof {
                            lemma_pos_of(c1, p1 as int);
                            lemma_pos_of(c2, p2 as int);
                        }
                        solution.cycle1.set(p1, v2);
                        solution.cycle2.set(p2, v1);
                    },
                    (Some((CycleId::Cycle2, p1)), Some((CycleId::Cycle1, p2))) => {
                        proof {
                            lemma_pos_of(c2, p1 as int);
                            lemma_pos_of(c1, p2 as int);
                        }
                        solution.cycle2.set(p1, v2);
                        solution.cycle1.set(p2, v1);
                    },
                    _ => {},
                }
            },
            Move::IntraRouteVertexExchange { v1, v2, cycle } => {
                let f1 = solution.find_node(v1);
                let f2 = solution.find_node(v2);
                if let (Some((k1, p1)), Some((k2, p2))) = (f1, f2) {
                    if k1 == cycle && k2 == cycle {
                        proof {
                            lemma_pos_of(pick(c1, c2, cycle), p1 as int);
                            lemma_pos_of(pick(c1, c2, cycle), p2 as int);
                        }
                        match cycle {
                            CycleId::Cycle1 => swap_in(&mut solution.cycle1, p1, p2),
                            CycleId::Cycle2 => swap_in(&mut solution.cycle2, p1, p2),
                        }
                    }
                }
            },
            Move::IntraRouteEdgeExchange { a, b, c, d, cycle } => {
                let fb = solution.find_node(b);
                let fc = solution.find_node(c);
                if let (Some((kb, pb)), Some((kc, pc))) = (fb, fc) {
                    if kb == cycle && kc == cycle {
                        let n = solution.get_cycle(cycle).len();
                        if n < 2 {
                            return;
                        }
                        proof {
                            lemma_pos_of(pick(c1, c2, cycle), pb as int);
                            lemma_pos_of(pick(c1, c2, cycle), pc as int);
                        }
                        let len = if pb <= pc {
                            pc - pb + 1
                        } else {
                            n - pb + pc + 1
                        };
                        match cycle {
                            CycleId::Cycle1 => reverse_in(&mut solution.cycle1, pb, len),
                            CycleId::Cycle2 => reverse_in(&mut solution.cycle2, pb, len),
                        }
                    }
                }
            },
        }
    }
}

} // verus!
