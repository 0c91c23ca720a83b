//! Random starting solutions.

use vstd::prelude::*;
use rand::rngs::StdRng;
use crate::cost::nodes_below;
use crate::random::shuffle_nodes;
use crate::tsplib::{Solution, TsplibInstance};

verus! {

/// The nodes `0..n` in a random order, each once.
pub fn random_permutation(n: usize, rng: &mut StdRng) -> (r: Vec<usize>)
    ensures
        r@.len() == n,
        r@.no_duplicates(),
        nodes_below(r@, n as int),
{
    let mut v: Vec<usize> = Vec::new();
    let mut k: usize = 0;
    while k < n
        invariant
            0 <= k <= n,
            v@ == Seq::new(k as nat, |i: int| i as usize),
        decreases n - k,
    {
        v.push(k);
        k += 1;
        assert(v@ =~= Seq::new(k as nat, |i: int| i as usize));
    }
    let ghost v0 = v@;
    assert(v0.no_duplicates());
    shuffle_nodes(rng, &mut v);
    proof {
        v0.lemma_multiset_has_no_duplicates();
        assert forall|x: usize| v@.to_multiset().contains(x) implies v@.to_multiset().count(x) == 1 by {
            assert(v0.to_multiset().contains(x));
        }
        v@.lemma_multiset_has_no_duplicates_conv();
        assert forall|j: int| 0 <= j < v@.len() implies #[trigger] v@[j] < n by {
            let x = v@[j];
            vstd::seq_lib::to_multiset_contains(v@, x);
            vstd::seq_lib::to_multiset_contains(v0, x);
            assert(v@.contains(x));
            assert(v0.contains(x));
        }
        v@.to_multiset_ensures();
        v0.to_multiset_ensures();
        assert(v@.len() == v0.len());
    }
    v
}

/// A uniformly random partition of the nodes into a first tour of
/// `ceil(n/2)` and a second of `floor(n/2)` nodes, each in random order.
pub fn generate_random_solution(instance: &TsplibInstance, rng: &mut StdRng) -> (r: Solution)
    ensures
        r.is_valid_for(instance.dimension as int),
{
    let n = instance.size();
    let perm = random_permutation(n, rng);
    let h = n - n / 2;
    let mut c1: Vec<usize> = Vec::new();
    let mut c2: Vec<usize> = Vec::new();
    let mut k: usize = 0;
    while k < n
        invariant
            perm@.len() == n,
            h == n - n / 2,
            0 <= k <= n,
            k <= h ==> c1@ == perm@.take(k as int) && c2@.len() == 0,
            k > h ==> c1@ == perm@.take(h as int) && c2@ == perm@.subrange(h as int, k as int),
        decreases n - k,
    {
        if k < h {
            c1.push(perm[k]);
            assert(c1@ =~= perm@.take(k as int + 1));
        } else {
            c2.push(perm[k]);
            assert(c2@ =~= perm@.subrange(h as int, k as int + 1));
        }
        k += 1;
    }
    assert(c1@ + c2@ =~= perm@);
    proof {
        crate::moves::lemma_concat_below(c1@, c2@, n as int);
    }
    Solution::new(c1, c2)
}

} // verus!
