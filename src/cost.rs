//! The mathematical model of tour length: open paths, closed cycles, and the
//! lemmas that relate the length of a cycle to its rotations, reversed
//! segments and replaced nodes.

use vstd::prelude::*;

verus! {

/// Weight of the directed edge `(i, j)` in the distance matrix `m`.
pub open spec fn dist(m: Seq<Seq<i32>>, i: usize, j: usize) -> int {
    m[i as int][j as int] as int
}

/// The matrix is square, symmetric and zero on its diagonal.
pub open spec fn is_metric_table(m: Seq<Seq<i32>>) -> bool {
    &&& forall|i: int| 0 <= i < m.len() ==> #[trigger] m[i].len() == m.len()
    &&& forall|i: int| 0 <= i < m.len() ==> #[trigger] m[i][i] == 0
    &&& forall|i: int, j: int|
        0 <= i < m.len() && 0 <= j < m.len() ==> #[trigger] m[i][j] == m[j][i]
}

/// Largest distance an instance may hold, so that the length of any pair of
/// tours over at most `MAX_NODES` nodes fits in an `i32`.
pub const MAX_DISTANCE: i32 = 1000000;

/// Largest number of nodes an instance may hold.
pub const MAX_NODES: usize = 2000;

/// Every distance between nodes of the table lies in `0..=MAX_DISTANCE`.
pub open spec fn is_bounded_table(m: Seq<Seq<i32>>) -> bool {
    forall|i: int, j: int|
        0 <= i < m.len() && 0 <= j < m.len() ==> 0 <= #[trigger] m[i][j] <= MAX_DISTANCE
}

/// Every entry of `s` names a node below `n`.
pub open spec fn nodes_below(s: Seq<usize>, n: int) -> bool {
    forall|k: int| 0 <= k < s.len() ==> #[trigger] s[k] < n
}

/// Length of the open path that visits `s` in order.
pub open spec fn path_cost(m: Seq<Seq<i32>>, s: Seq<usize>) -> int
    decreases s.len(),
{
    if s.len() <= 1 {
        0
    } else {
        path_cost(m, s.drop_last()) + dist(m, s[s.len() - 2], s.last())
    }
}

/// Length of the closed tour that visits `c` in order and returns to `c[0]`.
pub open spec fn cycle_cost(m: Seq<Seq<i32>>, c: Seq<usize>) -> int {
    if c.len() == 0 {
        0
    } else {
        path_cost(m, c) + dist(m, c.last(), c[0])
    }
}

/// Index after `i` on a cycle of length `n`.
pub open spec fn next_index(i: int, n: int) -> int {
    if i + 1 >= n {
        i + 1 - n
    } else {
        i + 1
    }
}

/// Index before `i` on a cycle of length `n`.
pub open spec fn prev_index(i: int, n: int) -> int {
    if i == 0 {
        n - 1
    } else {
        i - 1
    }
}

/// `x` reduced into `0..n`, for `0 <= x < 2n`.
pub open spec fn wrap(x: int, n: int) -> int {
    if x >= n {
        x - n
    } else {
        x
    }
}

/// The cycle `c` read from position `k` on.
pub open spec fn rotate(c: Seq<usize>, k: int) -> Seq<usize> {
    c.skip(k) + c.take(k)
}

/// `c` with the `len` entries that start at `start` (going round the end)
/// written in reverse order.
pub open spec fn reverse_segment(c: Seq<usize>, start: int, len: int) -> Seq<usize> {
    Seq::new(
        c.len(),
        |t: int|
            {
                let o = if t >= start {
                    t - start
                } else {
                    t + c.len() - start
                };
                if o < len {
                    c[wrap(start + len - 1 - o, c.len() as int)]
                } else {
                    c[t]
                }
            },
    )
}

pub proof fn lemma_path_concat(m: Seq<Seq<i32>>, s: Seq<usize>, t: Seq<usize>)
    ensures
        path_cost(m, s + t) == path_cost(m, s) + path_cost(m, t) + (if s.len() > 0 && t.len()
            > 0 {
            dist(m, s.last(), t[0])
        } else {
            0
        }),
    decreases t.len(),
{
    if t.len() == 0 {
        assert(s + t =~= s);
    } else if s.len() == 0 {
        assert(s + t =~= t);
    } else if t.len() == 1 {
        assert((s + t).drop_last() =~= s);
    } else {
        lemma_path_concat(m, s, t.drop_last());
        assert((s + t).drop_last() =~= s + t.drop_last());
    }
}

pub proof fn lemma_path_reverse(m: Seq<Seq<i32>>, s: Seq<usize>)
    requires
        is_metric_table(m),
        nodes_below(s, m.len() as int),
    ensures
        path_cost(m, s.reverse()) == path_cost(m, s),
    decreases s.len(),
{
    if s.len() > 1 {
        let p = s.drop_last();
        lemma_path_reverse(m, p);
        assert(s.reverse() =~= seq![s.last()] + p.reverse());
        lemma_path_concat(m, seq![s.last()], p.reverse());
        assert(s[s.len() - 2] < m.len());
        assert(s.last() < m.len());
    }
}

/// A cycle has the same length from whichever position it is read.
pub proof fn lemma_rotate_cost(m: Seq<Seq<i32>>, c: Seq<usize>, k: int)
    requires
        0 <= k <= c.len(),
    ensures
        cycle_cost(m, rotate(c, k)) == cycle_cost(m, c),
{
    let t = c.take(k);
    let s = c.skip(k);
    assert(c =~= t + s);
    if t.len() == 0 {
        assert(rotate(c, k) =~= c);
    } else if s.len() == 0 {
        assert(rotate(c, k) =~= c);
    } else {
        lemma_path_concat(m, t, s);
        lemma_path_concat(m, s, t);
    }
}

/// Reversing a leading segment `s` of the cycle `s + r` exchanges the two
/// edges that join it to the rest.
pub proof fn lemma_reverse_prefix_cost(m: Seq<Seq<i32>>, s: Seq<usize>, r: Seq<usize>)
    requires
        is_metric_table(m),
        nodes_below(s, m.len() as int),
        s.len() > 0,
        r.len() > 0,
    ensures
        cycle_cost(m, s.reverse() + r) == cycle_cost(m, s + r) + dist(m, r.last(), s.last())
            + dist(m, s[0], r[0]) - dist(m, r.last(), s[0]) - dist(m, s.last(), r[0]),
{
    lemma_path_concat(m, s, r);
    lemma_path_concat(m, s.reverse(), r);
    lemma_path_reverse(m, s);
    assert((s + r).last() == r.last());
    assert((s.reverse() + r).last() == r.last());
}

/// Reading a reversed segment from its start gives the segment reversed,
/// followed by the untouched rest of the cycle.
pub proof fn lemma_rotate_reverse_segment(c: Seq<usize>, start: int, len: int)
    requires
        0 <= start < c.len(),
        1 <= len <= c.len(),
    ensures
        rotate(reverse_segment(c, start, len), start) =~= rotate(c, start).take(len).reverse()
            + rotate(c, start).skip(len),
{
    let n = c.len() as int;
    let rc = rotate(c, start);
    let rr = rotate(reverse_segment(c, start, len), start);
    assert forall|k: int| 0 <= k < n implies #[trigger] rc[k] == c[wrap(start + k, n)] by {}
    assert forall|k: int| 0 <= k < n implies #[trigger] rr[k] == (if k < len {
        c[wrap(start + len - 1 - k, n)]
    } else {
        c[wrap(start + k, n)]
    }) by {}
}

/// Length change of reversing `len` entries of `c` from `start`, when at least
/// one node stays outside the segment.
pub proof fn lemma_reverse_segment_cost(m: Seq<Seq<i32>>, c: Seq<usize>, start: int, len: int)
    requires
        is_metric_table(m),
        nodes_below(c, m.len() as int),
        0 <= start < c.len(),
        1 <= len < c.len(),
    ensures
        cycle_cost(m, reverse_segment(c, start, len)) == cycle_cost(m, c) + dist(
            m,
            c[prev_index(start, c.len() as int)],
            c[wrap(start + len - 1, c.len() as int)],
        ) + dist(m, c[start], c[wrap(start + len, c.len() as int)]) - dist(
            m,
            c[prev_index(start, c.len() as int)],
            c[start],
        ) - dist(m, c[wrap(start + len - 1, c.len() as int)], c[wrap(start + len, c.len() as int)]),
{
    let n = c.len() as int;
    let rc = rotate(c, start);
    let r = reverse_segment(c, start, len);
    lemma_rotate_reverse_segment(c, start, len);
    lemma_rotate_cost(m, c, start);
    lemma_rotate_cost(m, r, start);
    let s = rc.take(len);
    let rest = rc.skip(len);
    assert(rc =~= s + rest);
    assert forall|k: int| 0 <= k < s.len() implies #[trigger] s[k] < m.len() by {
        assert(s[k] == c[wrap(start + k, n)]);
    }
    lemma_reverse_prefix_cost(m, s, rest);
    assert(s[0] == c[start]);
    assert(s.last() == c[wrap(start + len - 1, n)]);
    assert(rest[0] == c[wrap(start + len, n)]);
    assert(rest.last() == c[wrap(start + n - 1, n)]);
}

pub proof fn lemma_path_bounds(m: Seq<Seq<i32>>, s: Seq<usize>)
    requires
        is_bounded_table(m),
        nodes_below(s, m.len() as int),
    ensures
        0 <= path_cost(m, s),
        s.len() > 0 ==> path_cost(m, s) <= (s.len() - 1) * MAX_DISTANCE,
    decreases s.len(),
{
    if s.len() > 1 {
        lemma_path_bounds(m, s.drop_last());
        assert(s[s.len() - 2] < m.len());
        assert(s.last() < m.len());
    }
}

pub proof fn lemma_cycle_bounds(m: Seq<Seq<i32>>, c: Seq<usize>)
    requires
        is_bounded_table(m),
        nodes_below(c, m.len() as int),
    ensures
        0 <= cycle_cost(m, c) <= c.len() * MAX_DISTANCE,
{
    lemma_path_bounds(m, c);
    if c.len() > 0 {
        assert(c.last() < m.len());
        assert(c[0] < m.len());
    }
}

/// Length change of writing `x` at position `p` of `c`.
pub open spec fn replace_delta(m: Seq<Seq<i32>>, c: Seq<usize>, p: int, x: usize) -> int {
    let n = c.len() as int;
    if n == 1 {
        dist(m, x, x) - dist(m, c[0], c[0])
    } else {
        dist(m, c[prev_index(p, n)], x) + dist(m, x, c[next_index(p, n)]) - dist(
            m,
            c[prev_index(p, n)],
            c[p],
        ) - dist(m, c[p], c[next_index(p, n)])
    }
}

pub proof fn lemma_replace_cost(m: Seq<Seq<i32>>, c: Seq<usize>, p: int, x: usize)
    requires
        0 <= p < c.len(),
    ensures
        cycle_cost(m, c.update(p, x)) == cycle_cost(m, c) + replace_delta(m, c, p, x),
{
    let n = c.len() as int;
    let u = c.update(p, x);
    if n > 1 {
        lemma_rotate_cost(m, c, p);
        lemma_rotate_cost(m, u, p);
        let rc = rotate(c, p);
        let ru = rotate(u, p);
        let rest = rc.skip(1);
        assert(rc =~= seq![c[p]] + rest);
        assert(ru =~= seq![x] + rest);
        lemma_path_concat(m, seq![c[p]], rest);
        lemma_path_concat(m, seq![x], rest);
        assert(rest[0] == c[next_index(p, n)]);
        assert(rest.last() == c[prev_index(p, n)]);
    }
}

} // verus!
