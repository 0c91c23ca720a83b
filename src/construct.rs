//! Constructive heuristics that build a first solution: each tour starts from
//! one of the two most distant nodes and grows by nearest neighbour, cheapest
//! insertion, 2-regret or weighted 2-regret insertion.

use vstd::prelude::*;
use crate::cost::{dist, nodes_below};
use crate::moves::{lemma_join_distinct, lemma_permuted};
use crate::tsplib::{Solution, TsplibInstance};

verus! {

/// Length added by inserting `v` before position `pos` of the tour `c`
/// (after its last node when `pos` is its length).
pub open spec fn insertion_cost_spec(m: Seq<Seq<i32>>, c: Seq<usize>, v: usize, pos: int) -> int {
    let len = c.len() as int;
    if len == 0 {
        0
    } else if len == 1 {
        2 * dist(m, c[0], v)
    } else {
        let prev = c[if pos == 0 { len - 1 } else { pos - 1 }];
        let next = c[if pos == len { 0 } else { pos }];
        dist(m, prev, v) + dist(m, v, next) - dist(m, prev, next)
    }
}

/// Length added by inserting `vertex` before position `pos` of `cycle`.
pub fn calculate_insertion_cost(vertex: usize, pos: usize, cycle: &Vec<usize>, instance: &TsplibInstance) -> (r: i32)
    requires
        instance.wf(),
        nodes_below(cycle@, instance.dimension as int),
        vertex < instance.dimension,
        pos <= cycle@.len(),
    ensures
        r == insertion_cost_spec(instance.matrix(), cycle@, vertex, pos as int),
{
    let len = cycle.len();
    if len == 0 {
        return 0;
    }
    if len == 1 {
        return instance.distance(cycle[0], vertex) * 2;
    }
    let prev = cycle[if pos == 0 { len - 1 } else { pos - 1 }];
    let next = cycle[if pos == len { 0 } else { pos }];
    instance.distance(prev, vertex) + instance.distance(vertex, next) - instance.distance(prev, next)
}

/// The first position of least insertion cost for `vertex`, with that cost.
pub fn find_best_insertion(vertex: usize, cycle: &Vec<usize>, instance: &TsplibInstance) -> (r: (usize, i32))
    requires
        cycle@.len() <= crate::cost::MAX_NODES,
        instance.wf(),
        nodes_below(cycle@, instance.dimension as int),
        vertex < instance.dimension,
    ensures
        cycle@.len() == 0 ==> r == (0usize, 0i32),
        cycle@.len() > 0 ==> {
            &&& r.0 <= cycle@.len()
            &&& r.1 == insertion_cost_spec(instance.matrix(), cycle@, vertex, r.0 as int)
            &&& forall|p: int| 0 <= p <= cycle@.len() ==> r.1 <= #[trigger] insertion_cost_spec(instance.matrix(), cycle@, vertex, p)
            &&& forall|p: int| 0 <= p < r.0 ==> r.1 < #[trigger] insertion_cost_spec(instance.matrix(), cycle@, vertex, p)
        },
{
    let len = cycle.len();
    if len == 0 {
        return (0, 0);
    }
    let mut best_pos: usize = 0;
    let mut best_cost = calculate_insertion_cost(vertex, 0, cycle, instance);
    let mut pos: usize = 1;
    while pos <= len
        invariant
            instance.wf(),
            nodes_below(cycle@, instance.dimension as int),
            vertex < instance.dimension,
            len == cycle@.len(),
            len <= crate::cost::MAX_NODES,
            1 <= pos <= len + 1,
            best_pos < pos,
            best_cost == insertion_cost_spec(instance.matrix(), cycle@, vertex, best_pos as int),
            forall|p: int| 0 <= p < pos ==> best_cost <= #[trigger] insertion_cost_spec(instance.matrix(), cycle@, vertex, p),
            forall|p: int| 0 <= p < best_pos ==> best_cost < #[trigger] insertion_cost_spec(instance.matrix(), cycle@, vertex, p),
        decreases len + 1 - pos,
    {
        let c = calculate_insertion_cost(vertex, pos, cycle, instance);
        if c < best_cost {
            best_cost = c;
            best_pos = pos;
        }
        pos += 1;
    }
    (best_pos, best_cost)
}

/// The 2-regret of `vertex`: how much more its second-best insertion costs
/// than its best, with the first position of least cost.
pub fn calculate_regret(vertex: usize, cycle: &Vec<usize>, instance: &TsplibInstance) -> (r: (i32, usize))
    requires
        cycle@.len() <= crate::cost::MAX_NODES,
        instance.wf(),
        nodes_below(cycle@, instance.dimension as int),
        vertex < instance.dimension,
    ensures
        cycle@.len() == 0 ==> r == (0i32, 0usize),
        cycle@.len() > 0 ==> 0 <= r.0 <= 4 * crate::cost::MAX_DISTANCE,
        cycle@.len() > 0 ==> {
            let m = instance.matrix();
            let best = insertion_cost_spec(m, cycle@, vertex, r.1 as int);
            &&& r.1 <= cycle@.len()
            &&& forall|p: int| 0 <= p <= cycle@.len() ==> best <= #[trigger] insertion_cost_spec(m, cycle@, vertex, p)
            &&& forall|p: int| 0 <= p < r.1 ==> best < #[trigger] insertion_cost_spec(m, cycle@, vertex, p)
            &&& exists|p: int| 0 <= p <= cycle@.len() && p != r.1 && r.0 + best == #[trigger] insertion_cost_spec(m, cycle@, vertex, p)
            &&& forall|p: int| 0 <= p <= cycle@.len() && p != r.1 ==> r.0 + best <= #[trigger] insertion_cost_spec(m, cycle@, vertex, p)
        },
{
    let len = cycle.len();
    if len == 0 {
        return (0, 0);
    }
    let ghost m = instance.matrix();
    let (best_pos, best_cost) = find_best_insertion(vertex, cycle, instance);
    let mut second: i32 = 0;
    let mut second_pos: usize = 0;
    let mut have_second = false;
    let mut pos: usize = 0;
    while pos <= len
        invariant
            instance.wf(),
            m == instance.matrix(),
            nodes_below(cycle@, instance.dimension as int),
            vertex < instance.dimension,
            len == cycle@.len(),
            len <= crate::cost::MAX_NODES,
            len > 0,
            0 <= pos <= len + 1,
            best_pos <= len,
            best_cost == insertion_cost_spec(m, cycle@, vertex, best_pos as int),
            forall|p: int| 0 <= p <= len ==> best_cost <= #[trigger] insertion_cost_spec(m, cycle@, vertex, p),
            have_second ==> second_pos < pos && second_pos != best_pos && second == insertion_cost_spec(m, cycle@, vertex, second_pos as int),
            have_second ==> forall|p: int| 0 <= p < pos && p != best_pos ==> second <= #[trigger] insertion_cost_spec(m, cycle@, vertex, p),
            !have_second ==> (pos == 0 || (pos == 1 && best_pos == 0)),
        decreases len + 1 - pos,
    {
        if pos != best_pos {
            let c = calculate_insertion_cost(vertex, pos, cycle, instance);
            if !have_second || c < second {
                second = c;
                second_pos = pos;
                have_second = true;
            }
        }
        pos += 1;
    }
    assert(have_second) by {
        if !have_second {
            let other: int = if best_pos == 0 { 1 } else { 0 };
            assert(other <= len && other != best_pos);
        }
    }
    proof {
        crate::cost::lemma_cycle_bounds(m, cycle@);
        assert(cycle@[0] < instance.dimension);
    }
    assert(0 <= second - best_cost <= 4 * crate::cost::MAX_DISTANCE) by {
        lemma_insertion_cost_bounds(m, cycle@, vertex, second_pos as int, instance.dimension as int);
        lemma_insertion_cost_bounds(m, cycle@, vertex, best_pos as int, instance.dimension as int);
    }
    (second - best_cost, best_pos)
}

pub proof fn lemma_insertion_cost_bounds(m: Seq<Seq<i32>>, c: Seq<usize>, v: usize, pos: int, n: int)
    requires
        m.len() == n,
        crate::cost::is_bounded_table(m),
        nodes_below(c, n),
        v < n,
        0 <= pos <= c.len(),
    ensures
        -crate::cost::MAX_DISTANCE <= insertion_cost_spec(m, c, v, pos) <= 2 * crate::cost::MAX_DISTANCE,
{
    let len = c.len() as int;
    if len >= 1 {
        assert(c[0] < n);
        if len > 1 {
            let prev = c[if pos == 0 { len - 1 } else { pos - 1 }];
            let next = c[if pos == len { 0 } else { pos }];
            assert(prev < n && next < n);
        }
    }
}

/// Index of the first entry of `available` nearest to `from`.
pub fn find_nearest(from: usize, available: &Vec<usize>, instance: &TsplibInstance) -> (r: usize)
    requires
        instance.wf(),
        from < instance.dimension,
        nodes_below(available@, instance.dimension as int),
        available@.len() > 0,
    ensures
        r < available@.len(),
        forall|k: int| 0 <= k < available@.len() ==> dist(instance.matrix(), from, available@[r as int]) <= dist(
            instance.matrix(),
            from,
            #[trigger] available@[k],
        ),
        forall|k: int| 0 <= k < r ==> dist(instance.matrix(), from, available@[r as int]) < dist(
            instance.matrix(),
            from,
            #[trigger] available@[k],
        ),
{
    let mut best: usize = 0;
    let mut i: usize = 1;
    while i < available.len()
        invariant
            instance.wf(),
            from < instance.dimension,
            nodes_below(available@, instance.dimension as int),
            available@.len() > 0,
            best < i <= available@.len(),
            forall|k: int| 0 <= k < i ==> dist(instance.matrix(), from, available@[best as int]) <= dist(
                instance.matrix(),
                from,
                #[trigger] available@[k],
            ),
            forall|k: int| 0 <= k < best ==> dist(instance.matrix(), from, available@[best as int]) < dist(
                instance.matrix(),
                from,
                #[trigger] available@[k],
            ),
        decreases available@.len() - i,
    {
        if instance.distance(from, available[i]) < instance.distance(from, available[best]) {
            best = i;
        }
        i += 1;
    }
    best
}

/// Two distinct nodes at the greatest distance, the last such pair in
/// lexicographic order.
pub fn find_max_distance_pair(instance: &TsplibInstance) -> (r: (usize, usize))
    requires
        instance.wf(),
        instance.dimension >= 2,
    ensures
        r.0 < r.1 < instance.dimension,
        forall|i: usize, j: usize|
            i < j < instance.dimension ==> #[trigger] dist(instance.matrix(), i, j) <= dist(
                instance.matrix(),
                r.0,
                r.1,
            ),
{
    let n = instance.dimension;
    let mut best: (usize, usize) = (0, 1);
    let mut i: usize = 0;
    while i < n
        invariant
            instance.wf(),
            n == instance.dimension,
            n >= 2,
            0 <= i <= n,
            best.0 < best.1 < n,
            forall|a: usize, b: usize| a < i && a < b < n ==> #[trigger] dist(instance.matrix(), a, b) <= dist(
                instance.matrix(),
                best.0,
                best.1,
            ),
        decreases n - i,
    {
        let mut j: usize = i + 1;
        while j < n
            invariant
                instance.wf(),
                n == instance.dimension,
                n >= 2,
                0 <= i < n,
                i + 1 <= j <= n,
                best.0 < best.1 < n,
                forall|a: usize, b: usize|
                    ((a < i && a < b < n) || (a == i && a < b < j)) ==> #[trigger] dist(instance.matrix(), a, b)
                        <= dist(instance.matrix(), best.0, best.1),
            decreases n - j,
        {
            if instance.distance(i, j) >= instance.distance(best.0, best.1) {
                best = (i, j);
            }
            j += 1;
        }
        i += 1;
    }
    best
}

/// Moving entry `idx` of `a` to position `pos` of `c` rearranges `c + a`.
pub proof fn lemma_move_into(c: Seq<usize>, a: Seq<usize>, pos: int, idx: int, n: int)
    requires
        0 <= pos <= c.len(),
        0 <= idx < a.len(),
    ensures
        ({
            let t = c.insert(pos, a[idx]) + a.remove(idx);
            &&& t.len() == c.len() + a.len()
            &&& (c + a).no_duplicates() ==> t.no_duplicates()
            &&& nodes_below(c + a, n) ==> nodes_below(t, n)
            &&& forall|x: usize| t.contains(x) ==> #[trigger] (c + a).contains(x)
        }),
{
    let s = c + a;
    let t = c.insert(pos, a[idx]) + a.remove(idx);
    let lc = c.len() as int;
    let f = |i: int|
        if i < pos {
            i
        } else if i == pos {
            lc + idx
        } else if i <= lc {
            i - 1
        } else if i - lc - 1 < idx {
            i - 1
        } else {
            i
        };
    assert forall|i: int| 0 <= i < t.len() implies 0 <= #[trigger] f(i) < s.len() && t[i] == s[f(i)] by {}
    lemma_permuted(s, t, f, n);
}

/// How the next node to insert is chosen while a tour is grown.
#[derive(Clone, Copy)]
pub enum InsertionRule {
    /// Append the node nearest to the last one.
    Nearest,
    /// Insert the node and position of least added length.
    Cheapest,
    /// Insert the node of greatest 2-regret at its best position.
    Regret,
    /// Insert the node of greatest `regret_weight * regret + greedy_weight *
    /// best cost` at its best position.
    Weighted { regret_weight: i32, greedy_weight: i32 },
}

/// Grows a tour from `start` by moving the nodes of `available` into it, one
/// at a time by `rule`, until it holds `target_size` nodes or none is left.
pub fn build_cycle(
    start: usize,
    available: Vec<usize>,
    target_size: usize,
    rule: InsertionRule,
    instance: &TsplibInstance,
) -> (r: Vec<usize>)
    requires
        instance.wf(),
        start < instance.dimension,
        nodes_below(available@, instance.dimension as int),
        (seq![start] + available@).no_duplicates(),
        target_size >= 1,
    ensures
        r@.len() == (if target_size < available@.len() + 1 { target_size as int } else { available@.len() + 1int }),
        r@.contains(start),
        r@.no_duplicates(),
        nodes_below(r@, instance.dimension as int),
        forall|x: usize| r@.contains(x) ==> #[trigger] (seq![start] + available@).contains(x),
{
    let ghost n = instance.dimension as int;
    let ghost init = seq![start] + available@;
    let ghost total = available@.len() + 1;
    let mut available = available;
    let mut cycle: Vec<usize> = vec![start];
    assert(cycle@ + available@ =~= init);
    assert(cycle@[0] == start);
    proof {
        crate::moves::lemma_concat_below(seq![start], available@, n);
        crate::tsplib::lemma_distinct_nodes(init, n);
    }
    if !available.is_empty() && target_size > 1 {
        match rule {
            InsertionRule::Nearest => {},
            _ => {
                let idx = find_nearest(start, &available, instance);
                proof {
                    lemma_move_into(cycle@, available@, cycle@.len() as int, idx as int, n);
                }
                let len = cycle.len();
                let v = available.remove(idx);
                cycle.insert(len, v);
                assert(cycle@[0] == start);
            },
        }
    }
    while cycle.len() < target_size && !available.is_empty()
        invariant
            instance.wf(),
            n == instance.dimension,
            cycle@.len() + available@.len() == total,
            total <= crate::cost::MAX_NODES,
            cycle@.len() <= target_size,
            cycle@.len() >= 1,
            cycle@.contains(start),
            cycle@.len() + available@.len() <= crate::cost::MAX_NODES,
            (cycle@ + available@).no_duplicates(),
            nodes_below(cycle@ + available@, n),
            forall|x: usize| (cycle@ + available@).contains(x) ==> #[trigger] init.contains(x),
        decreases available@.len(),
    {
        proof {
            crate::moves::lemma_concat_below(cycle@, available@, n);
        }
        let (idx, pos) = choose_insertion(&cycle, &available, rule, instance);
        proof {
            lemma_move_into(cycle@, available@, pos as int, idx as int, n);
        }
        let v = available.remove(idx);
        let ghost c0 = cycle@;
        cycle.insert(pos, v);
        proof {
            let j = choose|j: int| 0 <= j < c0.len() && c0[j] == start;
            if j < pos {
                assert(cycle@[j] == start);
            } else {
                assert(cycle@[j + 1] == start);
            }
        }
    }
    proof {
        crate::moves::lemma_concat_below(cycle@, available@, n);
        crate::moves::lemma_split_distinct(cycle@, available@);
        assert forall|x: usize| cycle@.contains(x) implies #[trigger] init.contains(x) by {
            crate::perturbation::lemma_concat_contains(cycle@, available@, x);
        }
    }
    cycle
}

/// The entry of `available` to insert next and the position of `cycle` to
/// insert it at, by `rule`.
fn choose_insertion(
    cycle: &Vec<usize>,
    available: &Vec<usize>,
    rule: InsertionRule,
    instance: &TsplibInstance,
) -> (r: (usize, usize))
    requires
        cycle@.len() <= crate::cost::MAX_NODES,
        instance.wf(),
        cycle@.len() >= 1,
        available@.len() >= 1,
        nodes_below(cycle@, instance.dimension as int),
        nodes_below(available@, instance.dimension as int),
    ensures
        r.0 < available@.len(),
        r.1 <= cycle@.len(),
{
    match rule {
        InsertionRule::Nearest => {
            let last = cycle[cycle.len() - 1];
            (find_nearest(last, available, instance), cycle.len())
        },
        InsertionRule::Cheapest => {
            let (p0, c0) = find_best_insertion(available[0], cycle, instance);
            let mut best = (0usize, p0, c0);
            let mut i: usize = 1;
            while i < available.len()
                invariant
                    instance.wf(),
                    cycle@.len() >= 1,
                    cycle@.len() <= crate::cost::MAX_NODES,
                    nodes_below(cycle@, instance.dimension as int),
                    nodes_below(available@, instance.dimension as int),
                    best.0 < available@.len(),
                    best.1 <= cycle@.len(),
                decreases available@.len() - i,
            {
                let (p, c) = find_best_insertion(available[i], cycle, instance);
                if c < best.2 {
                    best = (i, p, c);
                }
                i += 1;
            }
            (best.0, best.1)
        },
        InsertionRule::Regret => {
            let (g0, p0) = calculate_regret(available[0], cycle, instance);
            let mut best = (0usize, p0, g0);
            let mut i: usize = 1;
            while i < available.len()
                invariant
                    instance.wf(),
                    cycle@.len() >= 1,
                    cycle@.len() <= crate::cost::MAX_NODES,
                    nodes_below(cycle@, instance.dimension as int),
                    nodes_below(available@, instance.dimension as int),
                    best.0 < available@.len(),
                    best.1 <= cycle@.len(),
                decreases available@.len() - i,
            {
                let (g, p) = calculate_regret(available[i], cycle, instance);
                if g >= best.2 {
                    best = (i, p, g);
                }
                i += 1;
            }
            (best.0, best.1)
        },
        InsertionRule::Weighted { regret_weight, greedy_weight } => {
            let (s0, p0) = weighted_score(available[0], cycle, regret_weight, greedy_weight, instance);
            let mut best = (0usize, p0, s0);
            let mut i: usize = 1;
            while i < available.len()
                invariant
                    instance.wf(),
                    cycle@.len() >= 1,
                    cycle@.len() <= crate::cost::MAX_NODES,
                    nodes_below(cycle@, instance.dimension as int),
                    nodes_below(available@, instance.dimension as int),
                    best.0 < available@.len(),
                    best.1 <= cycle@.len(),
                decreases available@.len() - i,
            {
                let (s, p) = weighted_score(available[i], cycle, regret_weight, greedy_weight, instance);
                if s >= best.2 {
                    best = (i, p, s);
                }
                i += 1;
            }
            (best.0, best.1)
        },
    }
}

/// `regret_weight * regret + greedy_weight * best cost` for `vertex`, with its
/// first position of least cost.
fn weighted_score(
    vertex: usize,
    cycle: &Vec<usize>,
    regret_weight: i32,
    greedy_weight: i32,
    instance: &TsplibInstance,
) -> (r: (i64, usize))
    requires
        cycle@.len() <= crate::cost::MAX_NODES,
        instance.wf(),
        cycle@.len() >= 1,
        nodes_below(cycle@, instance.dimension as int),
        vertex < instance.dimension,
    ensures
        r.1 <= cycle@.len(),
        forall|p: int| 0 <= p <= cycle@.len() ==> insertion_cost_spec(instance.matrix(), cycle@, vertex, r.1 as int) <= #[trigger] insertion_cost_spec(instance.matrix(), cycle@, vertex, p),
        forall|p: int| 0 <= p < r.1 ==> insertion_cost_spec(instance.matrix(), cycle@, vertex, r.1 as int) < #[trigger] insertion_cost_spec(instance.matrix(), cycle@, vertex, p),
{
    let (regret, pos) = calculate_regret(vertex, cycle, instance);
    let best = calculate_insertion_cost(vertex, pos, cycle, instance);
    proof {
        lemma_insertion_cost_bounds(instance.matrix(), cycle@, vertex, pos as int, instance.dimension as int);
    }
    let rw = regret_weight as i64;
    let gw = greedy_weight as i64;
    let rg = regret as i64;
    let bc = best as i64;
    assert(-2147483648 <= rw <= 2147483647);
    assert(-2147483648 <= gw <= 2147483647);
    assert(0 <= rg <= 4000000);
    assert(-1000000 <= bc <= 2000000);
    assert(-8589934592000000 <= rw * rg <= 8589934592000000) by (nonlinear_arith)
        requires -2147483648 <= rw <= 2147483647, 0 <= rg <= 4000000;
    assert(-4294967296000000 <= gw * bc <= 4294967296000000) by (nonlinear_arith)
        requires -2147483648 <= gw <= 2147483647, -1000000 <= bc <= 2000000;
    let score = rw * rg + gw * bc;
    (score, pos)
}

/// The nodes below `n` other than `s1` and `s2`, dealt alternately into two
/// lists, the first list first.
fn split_available(n: usize, s1: usize, s2: usize) -> (r: (Vec<usize>, Vec<usize>))
    requires
        s1 < n,
        s2 < n,
        s1 != s2,
    ensures
        r.0@.len() == (n - 1) / 2,
        r.1@.len() == (n - 2) / 2,
        (seq![s1] + r.0@).no_duplicates(),
        (seq![s2] + r.1@).no_duplicates(),
        nodes_below(r.0@, n as int),
        nodes_below(r.1@, n as int),
        forall|x: usize| (seq![s1] + r.0@).contains(x) ==> !#[trigger] (seq![s2] + r.1@).contains(x),
{
    let mut a1: Vec<usize> = Vec::new();
    let mut a2: Vec<usize> = Vec::new();
    let mut cnt: usize = 0;
    let mut v: usize = 0;
    while v < n
        invariant
            s1 < n,
            s2 < n,
            s1 != s2,
            0 <= v <= n,
            cnt == v - (if s1 < v { 1int } else { 0 }) - (if s2 < v { 1int } else { 0 }),
            a1@.len() == (cnt + 1) / 2,
            a2@.len() == cnt / 2,
            forall|k: int| 0 <= k < a1@.len() ==> #[trigger] a1@[k] < v && a1@[k] != s1 && a1@[k] != s2,
            forall|k: int| 0 <= k < a2@.len() ==> #[trigger] a2@[k] < v && a2@[k] != s1 && a2@[k] != s2,
            a1@.no_duplicates(),
            a2@.no_duplicates(),
            forall|x: usize| a1@.contains(x) ==> !#[trigger] a2@.contains(x),
        decreases n - v,
    {
        if v != s1 && v != s2 {
            let ghost b1 = a1@;
            let ghost b2 = a2@;
            assert(forall|x: usize| b1.contains(x) ==> !#[trigger] b2.contains(x));
            if cnt % 2 == 0 {
                a1.push(v);
            } else {
                a2.push(v);
            }
            assert forall|x: usize| a1@.contains(x) implies !#[trigger] a2@.contains(x) by {
                if a2@.contains(x) {
                    let i = choose|i: int| 0 <= i < a1@.len() && a1@[i] == x;
                    let j = choose|j: int| 0 <= j < a2@.len() && a2@[j] == x;
                    if x != v {
                        assert(i < b1.len() && j < b2.len());
                        assert(b1[i] == x);
                        assert(b1.contains(x));
                        assert(b2[j] == x);
                        assert(b2.contains(x));
                    } else if cnt % 2 == 0 {
                        assert(a2@ == b2);
                        assert(b2[j] < v);
                    } else {
                        assert(a1@ == b1);
                        assert(b1[i] < v);
                    }
                }
            }
            cnt += 1;
        }
        v += 1;
    }
    let ghost i1 = seq![s1] + a1@;
    let ghost i2 = seq![s2] + a2@;
    assert forall|i: int, j: int| 0 <= i < i1.len() && 0 <= j < i1.len() && i != j implies i1[i] != i1[j] by {
        if i > 0 && j > 0 {
            assert(i1[i] == a1@[i - 1] && i1[j] == a1@[j - 1]);
        } else if i > 0 {
            assert(i1[i] == a1@[i - 1]);
        } else if j > 0 {
            assert(i1[j] == a1@[j - 1]);
        }
    }
    assert forall|i: int, j: int| 0 <= i < i2.len() && 0 <= j < i2.len() && i != j implies i2[i] != i2[j] by {
        if i > 0 && j > 0 {
            assert(i2[i] == a2@[i - 1] && i2[j] == a2@[j - 1]);
        } else if i > 0 {
            assert(i2[i] == a2@[i - 1]);
        } else if j > 0 {
            assert(i2[j] == a2@[j - 1]);
        }
    }
    assert forall|x: usize| i1.contains(x) implies !#[trigger] i2.contains(x) by {
        if i2.contains(x) {
            let i = choose|i: int| 0 <= i < i1.len() && i1[i] == x;
            let j = choose|j: int| 0 <= j < i2.len() && i2[j] == x;
            if i > 0 {
                assert(a1@[i - 1] == x);
                assert(a1@.contains(x));
            }
            if j > 0 {
                assert(a2@[j - 1] == x);
                assert(a2@.contains(x));
            }
        }
    }
    (a1, a2)
}

/// Builds a solution: the two most distant nodes start the two tours, the
/// other nodes are dealt alternately to them, and each tour grows by `rule`
/// from the nodes dealt to it.
pub fn construct_solution(instance: &TsplibInstance, rule: InsertionRule) -> (r: Solution)
    requires
        instance.wf(),
    ensures
        r.is_valid_for(instance.dimension as int),
{
    let n = instance.dimension;
    if n == 0 {
        return Solution::new(Vec::new(), Vec::new());
    }
    if n == 1 {
        let r = Solution::new(vec![0], Vec::new());
        assert((r.cycle1@ + r.cycle2@) =~= seq![0usize]);
        return r;
    }
    let (start1, start2) = find_max_distance_pair(instance);
    let (available1, available2) = split_available(n, start1, start2);
    let t1 = available1.len() + 1;
    let t2 = available2.len() + 1;
    let ghost i1 = seq![start1] + available1@;
    let ghost i2 = seq![start2] + available2@;
    let cycle1 = build_cycle(start1, available1, t1, rule, instance);
    let cycle2 = build_cycle(start2, available2, t2, rule, instance);
    proof {
        assert forall|x: usize| cycle1@.contains(x) implies !#[trigger] cycle2@.contains(x) by {
            assert(i1.contains(x));
            if cycle2@.contains(x) {
                assert(i2.contains(x));
            }
        }
        lemma_join_distinct(cycle1@, cycle2@);
    }
    Solution::new(cycle1, cycle2)
}

/// Nearest-neighbour construction: each tour appends the node nearest to
/// its last one.
pub struct NearestNeighbor;

/// Greedy-cycle construction: each tour takes the node and position of least
/// added length.
pub struct GreedyCycle;

/// 2-regret construction: each tour takes the node whose second-best
/// insertion is dearest compared with its best.
pub struct RegretCycle;

/// Weighted 2-regret construction: each tour takes the node of greatest
/// `regret_weight * regret + greedy_weight * best cost`.
pub struct WeightedRegretCycle {
    pub regret_weight: i32,
    pub greedy_weight: i32,
}

impl NearestNeighbor {
    pub fn name(&self) -> &'static str {
        "Nearest Neighbor"
    }

    pub fn solve(&self, instance: &TsplibInstance) -> (r: Solution)
        requires
            instance.wf(),
        ensures
            r.is_valid_for(instance.dimension as int),
    {
        construct_solution(instance, InsertionRule::Nearest)
    }
}

impl GreedyCycle {
    pub fn name(&self) -> &'static str {
        "Greedy Cycle"
    }

    pub fn solve(&self, instance: &TsplibInstance) -> (r: Solution)
        requires
            instance.wf(),
        ensures
            r.is_valid_for(instance.dimension as int),
    {
        construct_solution(instance, InsertionRule::Cheapest)
    }
}

impl RegretCycle {
    pub fn new() -> Self {
        RegretCycle
    }

    pub fn name(&self) -> &'static str {
        "2-Regret Cycle"
    }

    pub fn solve(&self, instance: &TsplibInstance) -> (r: Solution)
        requires
            instance.wf(),
        ensures
            r.is_valid_for(instance.dimension as int),
    {
        construct_solution(instance, InsertionRule::Regret)
    }
}

impl WeightedRegretCycle {
    pub fn new(regret_weight: i32, greedy_weight: i32) -> (r: Self)
        ensures
            r.regret_weight == regret_weight,
            r.greedy_weight == greedy_weight,
    {
        WeightedRegretCycle { regret_weight, greedy_weight }
    }

    /// Regret weight 1 and greedy weight -1.
    pub fn default() -> (r: Self)
        ensures
            r.regret_weight == 1,
            r.greedy_weight == -1,
    {
        Self::new(1, -1)
    }

    pub fn name(&self) -> &'static str {
        "Weighted 2-Regret Cycle"
    }

    pub fn solve(&self, instance: &TsplibInstance) -> (r: Solution)
        requires
            instance.wf(),
        ensures
            r.is_valid_for(instance.dimension as int),
    {
        construct_solution(
            instance,
            InsertionRule::Weighted { regret_weight: self.regret_weight, greedy_weight: self.greedy_weight },
        )
    }
}

} // verus!
