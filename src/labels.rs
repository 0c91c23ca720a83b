//! Display names of the configured algorithms.

use vstd::prelude::*;
use crate::local_search::{HeuristicAlgorithm, InitialSolutionType, NeighborhoodType, SearchVariant};

verus! {

/// The decimal digits of `n`, without leading zeros.
pub open spec fn decimal(n: nat) -> Seq<char>
    decreases n,
{
    let digits = seq!['0', '1', '2', '3', '4', '5', '6', '7', '8', '9'];
    if n < 10 {
        seq![digits[n as int]]
    } else {
        decimal(n / 10) + seq![digits[(n % 10) as int]]
    }
}

/// The decimal text of `n`, with a leading `-` when it is negative.
pub open spec fn signed_decimal(n: int) -> Seq<char> {
    if n < 0 {
        seq!['-'] + decimal((-n) as nat)
    } else {
        decimal(n as nat)
    }
}

/// Relies on `i128`'s `ToString`, which writes it in decimal as `Display`
/// does: a `-` for a negative value, then the digits without leading zeros.
#[verifier::external_body]
pub(crate) fn decimal_text(n: i128) -> (r: String)
    ensures
        r@ == signed_decimal(n as int),
{
    n.to_string()
}

pub open spec fn neighborhood_text(nb: NeighborhoodType) -> Seq<char> {
    match nb {
        NeighborhoodType::VertexExchange => "VertexExchange"@,
        NeighborhoodType::EdgeExchange => "EdgeExchange"@,
    }
}

pub open spec fn initial_text(init: InitialSolutionType) -> Seq<char> {
    match init {
        InitialSolutionType::Random => "Random"@,
        InitialSolutionType::Heuristic(HeuristicAlgorithm::WeightedRegret) => "Heuristic(WeightedRegret)"@,
    }
}

/// The name of a local search configuration.
pub open spec fn search_name(variant: SearchVariant, nb: NeighborhoodType, init: InitialSolutionType) -> Seq<char> {
    match variant {
        SearchVariant::CandidateSteepest(k) => "Local Search (Candidate k="@ + decimal(k as nat) + ", "@
            + neighborhood_text(nb) + ", Init: "@ + initial_text(init) + ")"@,
        SearchVariant::MoveListSteepest => "Local Search (MoveListSteepest, "@ + neighborhood_text(nb)
            + ", Init: "@ + initial_text(init) + ")"@,
        SearchVariant::Steepest => "Local Search (Steepest, "@ + neighborhood_text(nb) + ", Init: "@
            + initial_text(init) + ")"@,
        SearchVariant::Greedy => "Local Search (Greedy, "@ + neighborhood_text(nb) + ", Init: "@ + initial_text(
            init,
        ) + ")"@,
    }
}

fn neighborhood_str(nb: NeighborhoodType) -> (r: &'static str)
    ensures
        r@ == neighborhood_text(nb),
{
    match nb {
        NeighborhoodType::VertexExchange => "VertexExchange",
        NeighborhoodType::EdgeExchange => "EdgeExchange",
    }
}

fn initial_str(init: InitialSolutionType) -> (r: &'static str)
    ensures
        r@ == initial_text(init),
{
    match init {
        InitialSolutionType::Random => "Random",
        InitialSolutionType::Heuristic(HeuristicAlgorithm::WeightedRegret) => "Heuristic(WeightedRegret)",
    }
}

/// The name of a local search configuration.
pub fn search_label(variant: SearchVariant, neighborhood: NeighborhoodType, initial: InitialSolutionType) -> (r: String)
    ensures
        r@ == search_name(variant, neighborhood, initial),
{
    let mut s = match variant {
        SearchVariant::CandidateSteepest(k) => {
            let mut t = String::from_str("Local Search (Candidate k=");
            let d = decimal_text(k as i128);
            t.append(d.as_str());
            t.append(", ");
            t
        },
        SearchVariant::MoveListSteepest => String::from_str("Local Search (MoveListSteepest, "),
        SearchVariant::Steepest => String::from_str("Local Search (Steepest, "),
        SearchVariant::Greedy => String::from_str("Local Search (Greedy, "),
    };
    s.append(neighborhood_str(neighborhood));
    s.append(", Init: ");
    s.append(initial_str(initial));
    s.append(")");
    proof {
        match variant {
            SearchVariant::CandidateSteepest(k) => {
                assert(signed_decimal(k as int) == decimal(k as nat));
            },
            _ => {},
        }
    }
    assert(s@ =~= search_name(variant, neighborhood, initial));
    s
}

/// The name of an evolutionary configuration.
pub open spec fn hae_name(with_local: bool, base: Seq<char>, pop_size: int, min_diff: int) -> Seq<char> {
    (if with_local { "HAE+LS"@ } else { "HAE"@ }) + " (Base: "@ + base + ", pop="@ + decimal(pop_size as nat)
        + ", min_diff="@ + signed_decimal(min_diff) + ")"@
}

pub fn hae_label(with_local: bool, base: &str, pop_size: usize, min_diff: i32) -> (r: String)
    ensures
        r@ == hae_name(with_local, base@, pop_size as int, min_diff as int),
{
    let mut s = if with_local {
        String::from_str("HAE+LS")
    } else {
        String::from_str("HAE")
    };
    s.append(" (Base: ");
    s.append(base);
    s.append(", pop=");
    let p = decimal_text(pop_size as i128);
    s.append(p.as_str());
    s.append(", min_diff=");
    let d = decimal_text(min_diff as i128);
    s.append(d.as_str());
    s.append(")");
    assert(s@ =~= hae_name(with_local, base@, pop_size as int, min_diff as int));
    s
}

/// The name of a multi-start configuration.
pub open spec fn msls_name(base: Seq<char>, iterations: int) -> Seq<char> {
    "MSLS (Base: "@ + base + ", Iterations: "@ + decimal(iterations as nat) + ")"@
}

pub fn msls_label(base: &str, iterations: usize) -> (r: String)
    ensures
        r@ == msls_name(base@, iterations as int),
{
    let mut s = String::from_str("MSLS (Base: ");
    s.append(base);
    s.append(", Iterations: ");
    let d = decimal_text(iterations as i128);
    s.append(d.as_str());
    s.append(")");
    assert(s@ =~= msls_name(base@, iterations as int));
    s
}

} // verus!
