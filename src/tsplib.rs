//! Problem instances (a symmetric integer distance matrix with candidate
//! neighbour lists) and solutions (two closed tours).

use vstd::prelude::*;
use crate::cost::{
    cycle_cost, dist, is_bounded_table, is_metric_table, lemma_cycle_bounds, next_index,
    nodes_below, path_cost, MAX_DISTANCE, MAX_NODES,
};

verus! {

/// Why an instance could not be built.
#[derive(Debug)]
pub enum TsplibError {
    Io(String),
    Parse(String),
    Format(String),
}

#[derive(Debug, Clone, Copy, PartialEq, Eq, Structural)]
pub enum EdgeWeightType {
    Explicit,
    Euc2D,
    Ceil2D,
    Geo,
    Att,
}

/// Names one of the two tours of a solution.
#[derive(Debug, Clone, Copy, PartialEq, Eq, Hash, Structural)]
pub enum CycleId {
    Cycle1,
    Cycle2,
}

impl CycleId {
    pub open spec fn other_spec(self) -> CycleId {
        match self {
            CycleId::Cycle1 => CycleId::Cycle2,
            CycleId::Cycle2 => CycleId::Cycle1,
        }
    }

    /// The other tour.
    pub fn other(self) -> (r: CycleId)
        ensures
            r == self.other_spec(),
    {
        match self {
            CycleId::Cycle1 => CycleId::Cycle2,
            CycleId::Cycle2 => CycleId::Cycle1,
        }
    }
}

/// An instance: `dimension` nodes, the distance between every two of them,
/// and for each node a list of its nearest other nodes.
#[derive(Debug, Clone)]
pub struct TsplibInstance {
    pub name: String,
    pub dimension: usize,
    pub edge_weight_type: EdgeWeightType,
    pub distances: Vec<Vec<i32>>,
    pub nearest: Vec<Vec<usize>>,
}

/// `row` lists nodes below `n` other than `i`, by ascending distance from `i`
/// and, at equal distance, by ascending index.
pub open spec fn is_neighbor_list(m: Seq<Seq<i32>>, i: int, row: Seq<usize>) -> bool {
    &&& nodes_below(row, m.len() as int)
    &&& forall|k: int| 0 <= k < row.len() ==> #[trigger] row[k] != i
    &&& forall|k: int|
        0 <= k < row.len() - 1 ==> {
            let a = row[k];
            let b = #[trigger] row[k + 1];
            m[i][a as int] < m[i][b as int] || (m[i][a as int] == m[i][b as int] && a < b)
        }
}

impl TsplibInstance {
    /// The distance matrix.
    pub open spec fn matrix(&self) -> Seq<Seq<i32>> {
        Seq::new(self.distances@.len(), |i: int| self.distances@[i]@)
    }

    /// The neighbour list of every node.
    pub open spec fn neighbor_lists(&self) -> Seq<Seq<usize>> {
        Seq::new(self.nearest@.len(), |i: int| self.nearest@[i]@)
    }

    pub open spec fn wf(&self) -> bool {
        &&& self.matrix().len() == self.dimension
        &&& self.dimension <= MAX_NODES
        &&& is_metric_table(self.matrix())
        &&& is_bounded_table(self.matrix())
        &&& self.neighbor_lists().len() == self.dimension
        &&& forall|i: int|
            0 <= i < self.dimension ==> is_neighbor_list(
                self.matrix(),
                i,
                #[trigger] self.neighbor_lists()[i],
            )
    }

    /// Builds an instance from its distance matrix. The matrix must be square,
    /// symmetric, zero on its diagonal, with entries in `0..=MAX_DISTANCE`, and
    /// hold at most `MAX_NODES` rows; each node starts with an empty neighbour
    /// list.
    pub fn from_distances(
        name: String,
        edge_weight_type: EdgeWeightType,
        distances: Vec<Vec<i32>>,
    ) -> (r: Result<TsplibInstance, TsplibError>)
        ensures
            r is Ok <==> ({
                let m = Seq::new(distances@.len(), |i: int| distances@[i]@);
                &&& distances@.len() <= MAX_NODES
                &&& is_metric_table(m)
                &&& is_bounded_table(m)
            }),
            r matches Ok(inst) ==> {
                &&& inst.wf()
                &&& inst.dimension == distances@.len()
                &&& inst.matrix() == Seq::new(distances@.len(), |i: int| distances@[i]@)
                &&& inst.name == name
                &&& inst.edge_weight_type == edge_weight_type
                &&& forall|i: int| 0 <= i < inst.dimension ==> #[trigger] inst.neighbor_lists()[i].len() == 0
            },
    {
        let ghost m = Seq::new(distances@.len(), |i: int| distances@[i]@);
        let n = distances.len();
        if n > MAX_NODES {
            return Err(TsplibError::Format(String::from_str("too many nodes")));
        }
        let mut i: usize = 0;
        while i < n
            invariant
                n == distances@.len(),
                m == Seq::new(distances@.len(), |i: int| distances@[i]@),
                0 <= i <= n,
                forall|a: int| 0 <= a < i ==> #[trigger] m[a].len() == n,
            decreases n - i,
        {
            assert(m[i as int] == distances@[i as int]@);
            if distances[i].len() != n {
                return Err(TsplibError::Format(String::from_str("distance matrix is not square")));
            }
            i += 1;
        }
        i = 0;
        while i < n
            invariant
                n == distances@.len(),
                m == Seq::new(distances@.len(), |i: int| distances@[i]@),
                0 <= i <= n,
                forall|a: int| 0 <= a < n ==> #[trigger] m[a].len() == n,
                forall|a: int| 0 <= a < i ==> #[trigger] m[a][a] == 0,
                forall|a: int, b: int|
                    0 <= a < i && 0 <= b < n ==> #[trigger] m[a][b] == m[b][a],
                forall|a: int, b: int|
                    0 <= a < i && 0 <= b < n ==> 0 <= #[trigger] m[a][b] <= MAX_DISTANCE,
            decreases n - i,
        {
            assert(m[i as int] == distances@[i as int]@);
            assert(m[i as int].len() == n);
            if distances[i][i] != 0 {
                return Err(TsplibError::Format(String::from_str("nonzero distance from a node to itself")));
            }
            let mut j: usize = 0;
            while j < n
                invariant
                    n == distances@.len(),
                    m == Seq::new(distances@.len(), |i: int| distances@[i]@),
                    0 <= i < n,
                    0 <= j <= n,
                    forall|a: int| 0 <= a < n ==> #[trigger] m[a].len() == n,
                    forall|b: int| 0 <= b < j ==> #[trigger] m[i as int][b] == m[b][i as int],
                    forall|b: int| 0 <= b < j ==> 0 <= #[trigger] m[i as int][b] <= MAX_DISTANCE,
                decreases n - j,
            {
                assert(m[i as int] == distances@[i as int]@);
                assert(m[j as int] == distances@[j as int]@);
                assert(m[i as int].len() == n);
                assert(m[j as int].len() == n);
                let x = distances[i][j];
                if x != distances[j][i] {
                    return Err(TsplibError::Format(String::from_str("distance matrix is not symmetric")));
                }
                if x < 0 || x > MAX_DISTANCE {
                    return Err(TsplibError::Format(String::from_str("distance out of range")));
                }
                j += 1;
            }
            i += 1;
        }
        let mut nearest: Vec<Vec<usize>> = Vec::new();
        let mut k: usize = 0;
        while k < n
            invariant
                0 <= k <= n,
                nearest@.len() == k,
                forall|a: int| 0 <= a < k ==> #[trigger] nearest@[a]@.len() == 0,
            decreases n - k,
        {
            nearest.push(Vec::new());
            k += 1;
        }
        let inst = TsplibInstance { name, dimension: n, edge_weight_type, distances, nearest };
        assert(inst.matrix() =~= m);
        Ok(inst)
    }

    /// Distance between nodes `i` and `j`.
    pub fn distance(&self, i: usize, j: usize) -> (r: i32)
        requires
            self.wf(),
            i < self.dimension,
            j < self.dimension,
        ensures
            r == dist(self.matrix(), i, j),
    {
        assert(self.matrix()[i as int] == self.distances@[i as int]@);
        self.distances[i][j]
    }

    /// Number of nodes.
    pub fn size(&self) -> (r: usize)
        ensures
            r == self.dimension,
    {
        self.dimension
    }
}

/// `(distance from i, index)` of `a` comes before that of `b`.
pub open spec fn closer(m: Seq<Seq<i32>>, i: int, a: usize, b: usize) -> bool {
    m[i][a as int] < m[i][b as int] || (m[i][a as int] == m[i][b as int] && a < b)
}

/// The `k` nodes nearest to `i` (fewer when the instance has fewer other
/// nodes), by ascending distance and then index.
fn nearest_list(instance: &TsplibInstance, i: usize, k: usize) -> (r: Vec<usize>)
    requires
        instance.wf(),
        i < instance.dimension,
    ensures
        is_neighbor_list(instance.matrix(), i as int, r@),
        r@.len() == (if k < instance.dimension - 1 { k as int } else { instance.dimension - 1 }),
        forall|a: int, u: usize|
            0 <= a < r@.len() && u < instance.dimension && u != i && !r@.contains(u) ==> #[trigger] closer(
                instance.matrix(),
                i as int,
                r@[a],
                u,
            ),
{
    let ghost m = instance.matrix();
    let n = instance.dimension;
    let want = if k < n - 1 { k } else { n - 1 };
    let mut taken: Vec<bool> = Vec::new();
    let mut t: usize = 0;
    while t < n
        invariant
            0 <= t <= n,
            taken@.len() == t,
            forall|x: int| 0 <= x < t ==> !#[trigger] taken@[x],
        decreases n - t,
    {
        taken.push(false);
        t += 1;
    }
    let mut row: Vec<usize> = Vec::new();
    while row.len() < want
        invariant
            instance.wf(),
            m == instance.matrix(),
            n == instance.dimension,
            i < n,
            want <= n - 1,
            taken@.len() == n,
            row@.len() <= want,
            is_neighbor_list(m, i as int, row@),
            row@.no_duplicates(),
            forall|x: usize| x < n ==> (#[trigger] taken@[x as int] <==> row@.contains(x)),
            forall|a: int, u: usize|
                0 <= a < row@.len() && u < n && u != i && !row@.contains(u) ==> #[trigger] closer(m, i as int, row@[a], u),
        decreases want - row@.len(),
    {
        let mut best: usize = n;
        let mut j: usize = 0;
        while j < n
            invariant
                instance.wf(),
                m == instance.matrix(),
                n == instance.dimension,
                i < n,
                taken@.len() == n,
                0 <= j <= n,
                best == n || (best < j && best != i && !taken@[best as int]),
                forall|u: usize| u < j && u != i && !taken@[u as int] ==> best != n && (u == best || closer(m, i as int, best, u)),
            decreases n - j,
        {
            if j != i && !taken[j] {
                if best == n || instance.distance(i, j) < instance.distance(i, best) {
                    best = j;
                }
            }
            j += 1;
        }
        proof {
            lemma_row_short(m, i as int, row@, n as int, want as int);
            let u = choose|u: usize| u < n && u != i && !row@.contains(u);
            assert(!taken@[u as int]);
        }
        let ghost before = row@;
        taken.set(best, true);
        row.push(best);
        proof {
            assert(!before.contains(best));
            assert forall|x: usize| x < n implies (#[trigger] taken@[x as int] <==> row@.contains(x)) by {
                if x != best && row@.contains(x) {
                    let q = choose|q: int| 0 <= q < row@.len() && row@[q] == x;
                    assert(before[q] == x);
                }
                if x != best && before.contains(x) {
                    let q = choose|q: int| 0 <= q < before.len() && before[q] == x;
                    assert(row@[q] == x);
                }
                if x == best {
                    assert(row@[before.len() as int] == best);
                }
            }
            assert forall|a: int, b: int| 0 <= a < row@.len() && 0 <= b < row@.len() && a != b implies row@[a] != row@[b] by {
                if a < before.len() && b == before.len() {
                    assert(before.contains(before[a]));
                } else if b < before.len() && a == before.len() {
                    assert(before.contains(before[b]));
                }
            }
            assert forall|a: int, u: usize|
                0 <= a < row@.len() && u < n && u != i && !row@.contains(u) implies #[trigger] closer(m, i as int, row@[a], u) by {
                assert(!before.contains(u)) by {
                    if before.contains(u) {
                        let q = choose|q: int| 0 <= q < before.len() && before[q] == u;
                        assert(row@[q] == u);
                    }
                }
                assert(u != best) by {
                    assert(row@[before.len() as int] == best);
                }
                if a == before.len() {
                    assert(!taken@[u as int] || u == best);
                }
            }
            assert forall|q: int| 0 <= q < row@.len() - 1 implies {
                let a = row@[q];
                let b = #[trigger] row@[q + 1];
                m[i as int][a as int] < m[i as int][b as int] || (m[i as int][a as int] == m[i as int][b as int] && a < b)
            } by {
                if q + 1 == before.len() {
                    assert(closer(m, i as int, before[q], best));
                }
            }
        }
    }
    row
}

/// While fewer than `want <= n - 1` nodes are listed, some node other than
/// `i` is not.
proof fn lemma_row_short(m: Seq<Seq<i32>>, i: int, row: Seq<usize>, n: int, want: int)
    requires
        0 <= i < n <= usize::MAX,
        row.len() < want <= n - 1,
        row.no_duplicates(),
        nodes_below(row, n),
    ensures
        exists|u: usize| u < n && u != i && !row.contains(u),
{
    let ext = row.push(i as usize);
    if forall|u: usize| u < n && u != i ==> row.contains(u) {
        assert forall|k: int| 0 <= k < ext.len() implies #[trigger] ext[k] < n by {}
        assert(!row.contains(i as usize) || row.contains(i as usize));
        lemma_nodes_up_to(n);
        let s = Set::new(|u: usize| u < n && u != i);
        assert(s.subset_of(row.to_set()));
        assert(nodes_up_to(n) =~= s.insert(i as usize));
        vstd::set_lib::lemma_set_subset_finite(nodes_up_to(n), s);
        assert(s.len() == n - 1);
        row.unique_seq_to_set();
        vstd::set_lib::lemma_len_subset(s, row.to_set());
    }
}

impl TsplibInstance {
    /// Stores for every node its `k` nearest other nodes, by ascending
    /// distance and then index.
    pub fn precompute_nearest_neighbors(&mut self, k: usize)
        requires
            old(self).wf(),
        ensures
            final(self).wf(),
            final(self).matrix() == old(self).matrix(),
            final(self).dimension == old(self).dimension,
            forall|i: int|
                0 <= i < final(self).dimension ==> (#[trigger] final(self).neighbor_lists()[i]).len() == (if k
                    < final(self).dimension - 1 {
                    k as int
                } else {
                    final(self).dimension - 1
                }),
            forall|i: int, a: int, u: usize|
                0 <= i < final(self).dimension && 0 <= a < final(self).neighbor_lists()[i].len() && u
                    < final(self).dimension && u != i && !final(self).neighbor_lists()[i].contains(u) ==> #[trigger] closer(
                    final(self).matrix(),
                    i,
                    final(self).neighbor_lists()[i][a],
                    u,
                ),
    {
        let n = self.dimension;
        let mut lists: Vec<Vec<usize>> = Vec::new();
        let mut i: usize = 0;
        while i < n
            invariant
                self.wf(),
                n == self.dimension,
                0 <= i <= n,
                lists@.len() == i,
                forall|a: int| 0 <= a < i ==> is_neighbor_list(self.matrix(), a, #[trigger] lists@[a]@),
                forall|a: int| 0 <= a < i ==> (#[trigger] lists@[a]@).len() == (if k < n - 1 { k as int } else { n - 1 }),
                forall|b: int, a: int, u: usize|
                    0 <= b < i && 0 <= a < lists@[b]@.len() && u < n && u != b && !lists@[b]@.contains(u) ==> #[trigger] closer(
                        self.matrix(),
                        b,
                        lists@[b]@[a],
                        u,
                    ),
            decreases n - i,
        {
            let row = nearest_list(self, i, k);
            lists.push(row);
            i += 1;
        }
        let ghost m = self.matrix();
        self.nearest = lists;
        assert(self.matrix() == m);
        assert forall|a: int| 0 <= a < self.dimension implies is_neighbor_list(self.matrix(), a, #[trigger] self.neighbor_lists()[a]) by {
            assert(self.neighbor_lists()[a] == lists@[a]@);
        }
        assert forall|a: int| 0 <= a < self.dimension implies (#[trigger] self.neighbor_lists()[a]).len() == (if k < n - 1 { k as int } else { n - 1 }) by {
            assert(self.neighbor_lists()[a] == lists@[a]@);
        }
        assert forall|b: int, a: int, u: usize|
            0 <= b < self.dimension && 0 <= a < self.neighbor_lists()[b].len() && u < self.dimension && u != b
                && !self.neighbor_lists()[b].contains(u) implies #[trigger] closer(
                self.matrix(),
                b,
                self.neighbor_lists()[b][a],
                u,
            ) by {
            assert(self.neighbor_lists()[b] == lists@[b]@);
        }
    }

    /// The stored neighbour list of `node`.
    pub fn get_nearest_neighbors(&self, node: usize) -> (r: &Vec<usize>)
        requires
            self.wf(),
            node < self.dimension,
        ensures
            r@ == self.neighbor_lists()[node as int],
    {
        &self.nearest[node]
    }
}

/// Largest absolute coordinate accepted by `from_coordinates`.
pub const MAX_COORDINATE: i64 = 300000;

/// `r` is `sqrt(s)` rounded to the nearest integer, that is
/// `floor(sqrt(s) + 0.5)`: `r - 1/2 <= sqrt(s) < r + 1/2`.
pub open spec fn is_rounded_root(s: int, r: int) -> bool {
    &&& r >= 0
    &&& 4 * s < (2 * r + 1) * (2 * r + 1)
    &&& (r == 0 || (2 * r - 1) * (2 * r - 1) <= 4 * s)
}

/// The TSPLIB `EUC_2D` distance of two points whose coordinates differ by
/// `dx` and `dy`: the Euclidean distance rounded to the nearest integer.
pub fn rounded_distance(dx: i64, dy: i64) -> (r: i32)
    requires
        -2 * MAX_COORDINATE <= dx <= 2 * MAX_COORDINATE,
        -2 * MAX_COORDINATE <= dy <= 2 * MAX_COORDINATE,
    ensures
        is_rounded_root(dx * dx + dy * dy, r as int),
        0 <= r <= MAX_DISTANCE,
{
    assert(0 <= dx * dx <= 360000000000) by (nonlinear_arith)
        requires -600000 <= dx <= 600000;
    assert(0 <= dy * dy <= 360000000000) by (nonlinear_arith)
        requires -600000 <= dy <= 600000;
    let s: i64 = dx * dx + dy * dy;
    let mut lo: i64 = 0;
    let mut hi: i64 = 1000000;
    assert(4 * s < (2 * hi + 1) * (2 * hi + 1)) by (nonlinear_arith)
        requires s <= 720000000000, hi == 1000000;
    while lo < hi
        invariant
            0 <= s <= 720000000000,
            0 <= lo <= hi <= 1000000,
            4 * s < (2 * hi + 1) * (2 * hi + 1),
            lo == 0 || (2 * lo - 1) * (2 * lo - 1) <= 4 * s,
        decreases hi - lo,
    {
        let mid = lo + (hi - lo) / 2;
        assert(0 <= (2 * mid + 1) * (2 * mid + 1) <= 4000004000001) by (nonlinear_arith)
            requires 0 <= mid <= 1000000;
        if 4 * s < (2 * mid + 1) * (2 * mid + 1) {
            hi = mid;
        } else {
            lo = mid + 1;
        }
    }
    lo as i32
}

impl TsplibInstance {
    /// Builds an `EUC_2D` instance from integer coordinates, each of absolute
    /// value at most `MAX_COORDINATE`, with at most `MAX_NODES` points.
    pub fn from_coordinates(name: String, coordinates: &Vec<(i64, i64)>) -> (r: Result<TsplibInstance, TsplibError>)
        ensures
            r is Ok <==> coordinates@.len() <= MAX_NODES && forall|k: int|
                0 <= k < coordinates@.len() ==> -MAX_COORDINATE <= (#[trigger] coordinates@[k]).0 <= MAX_COORDINATE
                    && -MAX_COORDINATE <= coordinates@[k].1 <= MAX_COORDINATE,
            r matches Ok(inst) ==> {
                &&& inst.wf()
                &&& inst.dimension == coordinates@.len()
                &&& inst.edge_weight_type == EdgeWeightType::Euc2D
                &&& forall|i: int, j: int|
                    0 <= i < inst.dimension && 0 <= j < inst.dimension ==> is_rounded_root(
                        (coordinates@[i].0 - coordinates@[j].0) * (coordinates@[i].0 - coordinates@[j].0)
                            + (coordinates@[i].1 - coordinates@[j].1) * (coordinates@[i].1 - coordinates@[j].1),
                        #[trigger] inst.matrix()[i][j] as int,
                    )
            },
    {
        let n = coordinates.len();
        if n > MAX_NODES {
            return Err(TsplibError::Format(String::from_str("too many nodes")));
        }
        let mut k: usize = 0;
        while k < n
            invariant
                n == coordinates@.len(),
                0 <= k <= n,
                forall|q: int| 0 <= q < k ==> -MAX_COORDINATE <= (#[trigger] coordinates@[q]).0 <= MAX_COORDINATE
                    && -MAX_COORDINATE <= coordinates@[q].1 <= MAX_COORDINATE,
            decreases n - k,
        {
            let (x, y) = coordinates[k];
            if x < -MAX_COORDINATE || x > MAX_COORDINATE || y < -MAX_COORDINATE || y > MAX_COORDINATE {
                return Err(TsplibError::Format(String::from_str("coordinate out of range")));
            }
            k += 1;
        }
        let ghost c = coordinates@;
        let mut rows: Vec<Vec<i32>> = Vec::new();
        let mut i: usize = 0;
        while i < n
            invariant
                n == coordinates@.len(),
                c == coordinates@,
                n <= MAX_NODES,
                0 <= i <= n,
                forall|q: int| 0 <= q < n ==> -MAX_COORDINATE <= (#[trigger] c[q]).0 <= MAX_COORDINATE
                    && -MAX_COORDINATE <= c[q].1 <= MAX_COORDINATE,
                rows@.len() == i,
                forall|a: int| 0 <= a < i ==> (#[trigger] rows@[a])@.len() == n,
                forall|a: int, b: int| 0 <= a < i && 0 <= b < n ==> is_rounded_root(
                    (c[a].0 - c[b].0) * (c[a].0 - c[b].0) + (c[a].1 - c[b].1) * (c[a].1 - c[b].1),
                    #[trigger] rows@[a]@[b] as int,
                ) && 0 <= rows@[a]@[b] <= MAX_DISTANCE,
            decreases n - i,
        {
            let mut row: Vec<i32> = Vec::new();
            let mut j: usize = 0;
            while j < n
                invariant
                    n == coordinates@.len(),
                    c == coordinates@,
                    0 <= i < n,
                    0 <= j <= n,
                    forall|q: int| 0 <= q < n ==> -MAX_COORDINATE <= (#[trigger] c[q]).0 <= MAX_COORDINATE
                        && -MAX_COORDINATE <= c[q].1 <= MAX_COORDINATE,
                    row@.len() == j,
                    forall|b: int| 0 <= b < j ==> is_rounded_root(
                        (c[i as int].0 - c[b].0) * (c[i as int].0 - c[b].0) + (c[i as int].1 - c[b].1) * (c[i as int].1 - c[b].1),
                        #[trigger] row@[b] as int,
                    ) && 0 <= row@[b] <= MAX_DISTANCE,
                decreases n - j,
            {
                let (xi, yi) = coordinates[i];
                let (xj, yj) = coordinates[j];
                let d = rounded_distance(xi - xj, yi - yj);
                row.push(d);
                j += 1;
            }
            rows.push(row);
            i += 1;
        }
        let ghost m = Seq::new(rows@.len(), |a: int| rows@[a]@);
        proof {
            assert forall|a: int, b: int| 0 <= a < n && 0 <= b < n implies #[trigger] m[a][b] == m[b][a] by {
                assert((c[a].0 - c[b].0) * (c[a].0 - c[b].0) == (c[b].0 - c[a].0) * (c[b].0 - c[a].0)) by (nonlinear_arith);
                assert((c[a].1 - c[b].1) * (c[a].1 - c[b].1) == (c[b].1 - c[a].1) * (c[b].1 - c[a].1)) by (nonlinear_arith);
                assert(m[a][b] == rows@[a]@[b]);
                assert(m[b][a] == rows@[b]@[a]);
                assert(is_rounded_root(
                    (c[b].0 - c[a].0) * (c[b].0 - c[a].0) + (c[b].1 - c[a].1) * (c[b].1 - c[a].1),
                    rows@[b]@[a] as int,
                ));
                assert(0 <= (c[a].0 - c[b].0) * (c[a].0 - c[b].0) + (c[a].1 - c[b].1) * (c[a].1 - c[b].1)) by (nonlinear_arith);
                lemma_rounded_root_unique(
                    (c[a].0 - c[b].0) * (c[a].0 - c[b].0) + (c[a].1 - c[b].1) * (c[a].1 - c[b].1),
                    m[a][b] as int,
                    m[b][a] as int,
                );
                assert((c[a].0 - c[b].0) * (c[a].0 - c[b].0) == (c[b].0 - c[a].0) * (c[b].0 - c[a].0)) by (nonlinear_arith);
                assert((c[a].1 - c[b].1) * (c[a].1 - c[b].1) == (c[b].1 - c[a].1) * (c[b].1 - c[a].1)) by (nonlinear_arith);
            }
            assert forall|a: int| 0 <= a < n implies #[trigger] m[a][a] == 0 by {
                assert(rows@[a]@[a] == m[a][a]);
                assert((c[a].0 - c[a].0) * (c[a].0 - c[a].0) + (c[a].1 - c[a].1) * (c[a].1 - c[a].1) == 0) by (nonlinear_arith);
                assert(is_rounded_root(0, rows@[a]@[a] as int));
                assert(is_rounded_root(0, 0)) by (nonlinear_arith);
                lemma_rounded_root_unique(0, m[a][a] as int, 0);
            }
            assert forall|a: int| 0 <= a < n implies #[trigger] m[a].len() == n by {}
            assert forall|a: int, b: int| 0 <= a < n && 0 <= b < n implies 0 <= #[trigger] m[a][b] <= MAX_DISTANCE by {
                assert(m[a][b] == rows@[a]@[b]);
            }
        }
        TsplibInstance::from_distances(name, EdgeWeightType::Euc2D, rows)
    }
}

/// A rounded square root is unique.
pub proof fn lemma_rounded_root_unique(s: int, r1: int, r2: int)
    requires
        s >= 0,
        is_rounded_root(s, r1),
        is_rounded_root(s, r2),
    ensures
        r1 == r2,
{
    if r1 < r2 {
        assert((2 * r1 + 1) * (2 * r1 + 1) <= (2 * r2 - 1) * (2 * r2 - 1)) by (nonlinear_arith)
            requires 0 <= r1, r1 + 1 <= r2;
    } else if r2 < r1 {
        assert((2 * r2 + 1) * (2 * r2 + 1) <= (2 * r1 - 1) * (2 * r1 - 1)) by (nonlinear_arith)
            requires 0 <= r2, r2 + 1 <= r1;
    }
}

/// The distance between two nodes of an instance does not depend on their
/// order, and a node is at distance zero from itself.
pub proof fn lemma_distance_symmetric(instance: &TsplibInstance, i: usize, j: usize)
    requires
        instance.wf(),
        i < instance.dimension,
        j < instance.dimension,
    ensures
        dist(instance.matrix(), i, j) == dist(instance.matrix(), j, i),
        dist(instance.matrix(), i, i) == 0,
{
}

/// Two closed tours over the nodes of an instance.
#[derive(Debug, Clone)]
pub struct Solution {
    pub cycle1: Vec<usize>,
    pub cycle2: Vec<usize>,
}

/// `u` is immediately followed by `v` on the closed tour `c`.
pub open spec fn has_directed_edge(c: Seq<usize>, u: usize, v: usize) -> bool {
    exists|i: int| 0 <= i < c.len() && #[trigger] c[i] == u && c[next_index(i, c.len() as int)] == v
}

/// `{u, v}` is an edge of the closed tour `c`, in either direction.
pub open spec fn has_undirected_edge(c: Seq<usize>, u: usize, v: usize) -> bool {
    has_directed_edge(c, u, v) || has_directed_edge(c, v, u)
}

impl Solution {
    pub open spec fn c1(&self) -> Seq<usize> {
        self.cycle1@
    }

    pub open spec fn c2(&self) -> Seq<usize> {
        self.cycle2@
    }

    pub open spec fn cycle_of(&self, id: CycleId) -> Seq<usize> {
        match id {
            CycleId::Cycle1 => self.cycle1@,
            CycleId::Cycle2 => self.cycle2@,
        }
    }

    /// All entries are nodes below `n` and none occurs twice in the two tours.
    pub open spec fn well_formed(&self, n: int) -> bool {
        &&& nodes_below(self.cycle1@, n)
        &&& nodes_below(self.cycle2@, n)
        &&& (self.cycle1@ + self.cycle2@).no_duplicates()
    }

    /// The two tours together hold each node below `n` exactly once.
    pub open spec fn covers(&self, n: int) -> bool {
        &&& self.well_formed(n)
        &&& self.cycle1@.len() + self.cycle2@.len() == n
    }

    /// The first tour holds `ceil(n/2)` nodes and the second `floor(n/2)`.
    pub open spec fn sizes_ok(&self, n: int) -> bool {
        &&& self.cycle1@.len() == (n + 1) / 2
        &&& self.cycle2@.len() == n / 2
    }

    pub open spec fn is_valid_for(&self, n: int) -> bool {
        self.covers(n) && self.sizes_ok(n)
    }

    /// Combined length of the two tours under the matrix `m`.
    pub open spec fn total_cost(&self, m: Seq<Seq<i32>>) -> int {
        cycle_cost(m, self.cycle1@) + cycle_cost(m, self.cycle2@)
    }

    pub fn new(cycle1: Vec<usize>, cycle2: Vec<usize>) -> (r: Solution)
        ensures
            r.cycle1@ == cycle1@,
            r.cycle2@ == cycle2@,
    {
        Solution { cycle1, cycle2 }
    }

    /// A copy with the same tours.
    pub fn duplicate(&self) -> (r: Solution)
        ensures
            r.cycle1@ == self.cycle1@,
            r.cycle2@ == self.cycle2@,
    {
        let c1 = self.cycle1.clone();
        let c2 = self.cycle2.clone();
        assert(c1@ =~= self.cycle1@);
        assert(c2@ =~= self.cycle2@);
        Solution { cycle1: c1, cycle2: c2 }
    }

    pub fn get_cycle(&self, id: CycleId) -> (r: &Vec<usize>)
        ensures
            r@ == self.cycle_of(id),
    {
        match id {
            CycleId::Cycle1 => &self.cycle1,
            CycleId::Cycle2 => &self.cycle2,
        }
    }
}


/// The nodes below `n`, as a set.
pub open spec fn nodes_up_to(n: int) -> Set<usize> {
    Set::new(|x: usize| x < n)
}

pub proof fn lemma_nodes_up_to(n: int)
    requires
        0 <= n <= usize::MAX,
    ensures
        nodes_up_to(n).finite(),
        nodes_up_to(n).len() == n,
    decreases n,
{
    if n == 0 {
        assert(nodes_up_to(n) =~= Set::empty());
    } else {
        lemma_nodes_up_to(n - 1);
        assert(!nodes_up_to(n - 1).contains((n - 1) as usize));
        assert(nodes_up_to(n) =~= nodes_up_to(n - 1).insert((n - 1) as usize));
    }
}

/// Distinct nodes below `n` are at most `n` in number, and exactly `n` of
/// them are all the nodes below `n`.
pub proof fn lemma_distinct_nodes(s: Seq<usize>, n: int)
    requires
        0 <= n <= usize::MAX,
        s.no_duplicates(),
        nodes_below(s, n),
    ensures
        s.len() <= n,
        s.len() == n ==> forall|v: usize| v < n ==> #[trigger] s.contains(v),
{
    lemma_nodes_up_to(n);
    s.unique_seq_to_set();
    assert(s.to_set().subset_of(nodes_up_to(n)));
    vstd::set_lib::lemma_len_subset(s.to_set(), nodes_up_to(n));
    if s.len() == n {
        vstd::set_lib::lemma_subset_equality(s.to_set(), nodes_up_to(n));
        assert forall|v: usize| v < n implies #[trigger] s.contains(v) by {
            assert(nodes_up_to(n).contains(v));
        }
    }
}

/// A solution that covers `n` nodes holds each node below `n` exactly once
/// across its two tours.
pub proof fn lemma_coverage(sol: &Solution, n: int)
    requires
        0 <= n <= usize::MAX,
        sol.covers(n),
    ensures
        forall|v: usize| v < n ==> #[trigger] (sol.cycle1@ + sol.cycle2@).to_multiset().count(v) == 1,
{
    let all = sol.cycle1@ + sol.cycle2@;
    assert forall|k: int| 0 <= k < all.len() implies #[trigger] all[k] < n by {
        if k < sol.cycle1@.len() {
            assert(all[k] == sol.cycle1@[k]);
        } else {
            assert(all[k] == sol.cycle2@[k - sol.cycle1@.len()]);
        }
    }
    lemma_distinct_nodes(all, n);
    all.lemma_multiset_has_no_duplicates();
    assert forall|v: usize| v < n implies #[trigger] all.to_multiset().count(v) == 1 by {
        assert(all.contains(v));
        vstd::seq_lib::to_multiset_contains(all, v);
    }
}

/// The length of a closed tour over nodes of the instance.
pub fn calculate_cycle_cost(cycle: &Vec<usize>, instance: &TsplibInstance) -> (r: i32)
    requires
        instance.wf(),
        nodes_below(cycle@, instance.dimension as int),
        cycle@.len() <= MAX_NODES,
    ensures
        r == cycle_cost(instance.matrix(), cycle@),
{
    let ghost m = instance.matrix();
    let len = cycle.len();
    if len == 0 {
        return 0;
    }
    let mut cost: i32 = 0;
    let mut i: usize = 0;
    while i + 1 < len
        invariant
            instance.wf(),
            m == instance.matrix(),
            nodes_below(cycle@, instance.dimension as int),
            len == cycle@.len(),
            len <= MAX_NODES,
            0 <= i < len,
            cost == path_cost(m, cycle@.take(i as int + 1)),
            0 <= cost <= i * MAX_DISTANCE,
        decreases len - i,
    {
        let d = instance.distance(cycle[i], cycle[i + 1]);
        assert(cycle@.take(i as int + 2).drop_last() =~= cycle@.take(i as int + 1));
        cost = cost + d;
        i += 1;
    }
    assert(cycle@.take(len as int) =~= cycle@);
    let closing = instance.distance(cycle[len - 1], cycle[0]);
    cost + closing
}

impl Solution {
    /// Combined length of both tours.
    pub fn calculate_cost(&self, instance: &TsplibInstance) -> (r: i32)
        requires
            instance.wf(),
            self.well_formed(instance.dimension as int),
        ensures
            r == self.total_cost(instance.matrix()),
    {
        let ghost n = instance.dimension as int;
        proof {
            self.lemma_len_bound(n);
            lemma_cycle_bounds(instance.matrix(), self.cycle1@);
            lemma_cycle_bounds(instance.matrix(), self.cycle2@);
        }
        let a = calculate_cycle_cost(&self.cycle1, instance);
        let b = calculate_cycle_cost(&self.cycle2, instance);
        a + b
    }

    /// A well-formed solution holds at most `n` nodes, and its total length
    /// fits the bound that the costs of the search are kept in.
    pub proof fn lemma_len_bound(&self, n: int)
        requires
            0 <= n <= usize::MAX,
            self.well_formed(n),
        ensures
            self.cycle1@.len() + self.cycle2@.len() <= n,
    {
        let all = self.cycle1@ + self.cycle2@;
        assert forall|k: int| 0 <= k < all.len() implies #[trigger] all[k] < n by {
            if k < self.cycle1@.len() {
                assert(all[k] == self.cycle1@[k]);
            } else {
                assert(all[k] == self.cycle2@[k - self.cycle1@.len()]);
            }
        }
        lemma_distinct_nodes(all, n);
    }

    pub proof fn lemma_cost_bounds(&self, m: Seq<Seq<i32>>)
        requires
            m.len() <= MAX_NODES,
            is_bounded_table(m),
            self.well_formed(m.len() as int),
        ensures
            0 <= self.total_cost(m) <= (self.cycle1@.len() + self.cycle2@.len()) * MAX_DISTANCE,
            self.total_cost(m) <= MAX_NODES * MAX_DISTANCE,
    {
        self.lemma_len_bound(m.len() as int);
        lemma_cycle_bounds(m, self.cycle1@);
        lemma_cycle_bounds(m, self.cycle2@);
    }

    /// Whether the two tours together hold every node of the instance exactly
    /// once.
    pub fn is_valid(&self, instance: &TsplibInstance) -> (r: bool)
        ensures
            r == self.covers(instance.dimension as int),
    {
        let n = instance.dimension;
        let l1 = self.cycle1.len();
        let l2 = self.cycle2.len();
        if l1 > n || l2 != n - l1 {
            return false;
        }
        let ghost all = self.cycle1@ + self.cycle2@;
        let mut used: Vec<bool> = Vec::new();
        let mut k: usize = 0;
        while k < n
            invariant
                0 <= k <= n,
                used@.len() == k,
                forall|x: int| 0 <= x < k ==> !#[trigger] used@[x],
            decreases n - k,
        {
            used.push(false);
            k += 1;
        }
        k = 0;
        while k < n
            invariant
                n == instance.dimension,
                l1 == self.cycle1@.len(),
                all == self.cycle1@ + self.cycle2@,
                all.len() == n,
                0 <= k <= n,
                used@.len() == n,
                nodes_below(all.take(k as int), n as int),
                all.take(k as int).no_duplicates(),
                forall|x: int| 0 <= x < n ==> (#[trigger] used@[x] <==> all.take(k as int).contains(x as usize)),
            decreases n - k,
        {
            let v = if k < l1 {
                self.cycle1[k]
            } else {
                self.cycle2[k - l1]
            };
            assert(v == all[k as int]);
            if v >= n {
                proof {
                    if self.well_formed(n as int) {
                        self.lemma_wf_entries(n as int, k as int);
                    }
                }
                return false;
            }
            if used[v] {
                proof {
                    let j = choose|j: int| 0 <= j < k && #[trigger] all.take(k as int)[j] == v;
                    assert(all[j] == all[k as int]);
                }
                return false;
            }
            let ghost old_used = used@;
            used.set(v, true);
            assert(all.take(k as int + 1) =~= all.take(k as int).push(v));
            assert forall|x: int| 0 <= x < n implies (#[trigger] used@[x] <==> all.take(
                k as int + 1,
            ).contains(x as usize)) by {
                if x != v as int {
                    assert(used@[x] == old_used[x]);
                    if all.take(k as int + 1).contains(x as usize) {
                        let j = choose|j: int| 0 <= j < k + 1 && #[trigger] all.take(k as int + 1)[j] == x as usize;
                        assert(j < k);
                        assert(all.take(k as int)[j] == x as usize);
                    }
                } else {
                    assert(all.take(k as int + 1)[k as int] == v);
                }
            }
            k += 1;
        }
        assert(all.take(n as int) =~= all);
        proof {
            assert forall|x: int| 0 <= x < self.cycle1@.len() implies #[trigger] self.cycle1@[x] < n by {
                assert(all[x] == self.cycle1@[x]);
            }
            assert forall|x: int| 0 <= x < self.cycle2@.len() implies #[trigger] self.cycle2@[x] < n by {
                assert(all[l1 + x] == self.cycle2@[x]);
            }
        }
        true
    }

    /// In a well-formed solution every entry of the two tours, read together,
    /// is below `n`.
    proof fn lemma_wf_entries(&self, n: int, k: int)
        requires
            0 <= k < self.cycle1@.len() + self.cycle2@.len(),
            self.well_formed(n),
        ensures
            (self.cycle1@ + self.cycle2@)[k] < n,
    {
        if k >= self.cycle1@.len() {
            assert((self.cycle1@ + self.cycle2@)[k] == self.cycle2@[k - self.cycle1@.len()]);
        }
    }

    /// The tour and position that hold `node`, looking in the first tour
    /// first.
    pub fn find_node(&self, node: usize) -> (r: Option<(CycleId, usize)>)
        ensures
            match r {
                Some((CycleId::Cycle1, p)) => p < self.cycle1@.len() && self.cycle1@[p as int] == node,
                Some((CycleId::Cycle2, p)) => p < self.cycle2@.len() && self.cycle2@[p as int] == node
                    && !self.cycle1@.contains(node),
                None => !self.cycle1@.contains(node) && !self.cycle2@.contains(node),
            },
    {
        match position_in(&self.cycle1, node) {
            Some(p) => Some((CycleId::Cycle1, p)),
            None => match position_in(&self.cycle2, node) {
                Some(p) => Some((CycleId::Cycle2, p)),
                None => None,
            },
        }
    }

    /// Whether `u` is immediately followed by `v` in the given tour.
    pub fn check_edge_in_cycle(&self, id: CycleId, u: usize, v: usize) -> (r: bool)
        ensures
            r == has_directed_edge(self.cycle_of(id), u, v),
    {
        let c = self.get_cycle(id);
        let len = c.len();
        let mut i: usize = 0;
        while i < len
            invariant
                c@ == self.cycle_of(id),
                len == c@.len(),
                0 <= i <= len,
                forall|j: int| 0 <= j < i ==> !(#[trigger] c@[j] == u && c@[next_index(j, len as int)] == v),
            decreases len - i,
        {
            let nx = if i + 1 == len { 0 } else { i + 1 };
            if c[i] == u && c[nx] == v {
                return true;
            }
            i += 1;
        }
        false
    }

    /// The tour in which `{u, v}` is an edge, in either direction, looking in
    /// the first tour first.
    pub fn has_edge(&self, u: usize, v: usize) -> (r: Option<CycleId>)
        ensures
            r == Some(CycleId::Cycle1) <==> has_undirected_edge(self.cycle1@, u, v),
            r == Some(CycleId::Cycle2) <==> (!has_undirected_edge(self.cycle1@, u, v)
                && has_undirected_edge(self.cycle2@, u, v)),
    {
        if self.check_edge_in_cycle(CycleId::Cycle1, u, v) || self.check_edge_in_cycle(CycleId::Cycle1, v, u) {
            Some(CycleId::Cycle1)
        } else if self.check_edge_in_cycle(CycleId::Cycle2, u, v) || self.check_edge_in_cycle(CycleId::Cycle2, v, u) {
            Some(CycleId::Cycle2)
        } else {
            None
        }
    }
}

/// First position of `x` in `v`.
pub fn position_in(v: &Vec<usize>, x: usize) -> (r: Option<usize>)
    ensures
        match r {
            Some(p) => p < v@.len() && v@[p as int] == x && forall|j: int| 0 <= j < p ==> v@[j] != x,
            None => !v@.contains(x),
        },
{
    let mut i: usize = 0;
    while i < v.len()
        invariant
            0 <= i <= v@.len(),
            forall|j: int| 0 <= j < i ==> v@[j] != x,
        decreases v@.len() - i,
    {
        if v[i] == x {
            return Some(i);
        }
        i += 1;
    }
    None
}

} // verus!
