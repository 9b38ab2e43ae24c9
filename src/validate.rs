//! The checks a pair list must pass before it is optimized over.
use vstd::prelude::*;
use crate::pair::{TradingPair, is_edge};
use crate::graph::{connected, find_connected_component};
use crate::seqs::{names, contains_name};

verus! {

/// Why a pair list, with a start and a final asset, cannot be optimized over.
#[derive(Debug, Clone)]
pub enum ValidationError {
    /// The pair list is empty.
    EmptyInput,
    /// An asset, and the exchange, of a pair that trades an asset for itself.
    SelfPair(String, String),
    /// A pair, base then quote, whose reverse is not in the list.
    NonReversiblePair(String, String),
    /// An asset that is the base of no pair.
    UnknownAsset(String),
    /// Start and final asset lie in different connected components.
    Unreachable(String, String),
}

/// No pair trades an asset for itself.
pub open spec fn no_self_pair(edges: Seq<TradingPair>) -> bool {
    forall|i: int| 0 <= i < edges.len() ==> (#[trigger] edges[i]).base_asset@ != edges[i].quote_asset@
}

/// Every pair has its reverse in the list.
pub open spec fn reversible(edges: Seq<TradingPair>) -> bool {
    forall|i: int|
        0 <= i < edges.len() ==> is_edge(edges, (#[trigger] edges[i]).quote_asset@, edges[i].base_asset@)
}

/// `x` is the base asset of some pair.
pub open spec fn is_base(edges: Seq<TradingPair>, x: Seq<char>) -> bool {
    exists|i: int| 0 <= i < edges.len() && (#[trigger] edges[i]).base_asset@ == x
}

/// All checks pass.
pub open spec fn valid_input(edges: Seq<TradingPair>, start: Seq<char>, end: Seq<char>) -> bool {
    &&& edges.len() > 0
    &&& no_self_pair(edges)
    &&& reversible(edges)
    &&& is_base(edges, start)
    &&& is_base(edges, end)
    &&& connected(edges, start, end)
}

/// The index of a pair whose reverse is missing, if there is one.
pub fn find_non_reversible(trading_pairs: &Vec<TradingPair>) -> (r: Option<usize>)
    ensures
        r.is_none() <==> reversible(trading_pairs@),
        r matches Some(i) ==> i < trading_pairs.len() && !is_edge(
            trading_pairs@,
            trading_pairs@[i as int].quote_asset@,
            trading_pairs@[i as int].base_asset@,
        ),
{
    let ghost edges = trading_pairs@;
    let mut i: usize = 0;
    while i < trading_pairs.len()
        invariant
            0 <= i <= trading_pairs.len(),
            edges == trading_pairs@,
            forall|k: int|
                0 <= k < i ==> is_edge(edges, (#[trigger] edges[k]).quote_asset@, edges[k].base_asset@),
        decreases trading_pairs.len() - i,
    {
        let mut found = false;
        let mut j: usize = 0;
        while j < trading_pairs.len()
            invariant
                0 <= i < trading_pairs.len(),
                0 <= j <= trading_pairs.len(),
                edges == trading_pairs@,
                found ==> is_edge(edges, edges[i as int].quote_asset@, edges[i as int].base_asset@),
                !found ==> forall|k: int|
                    0 <= k < j ==> !((#[trigger] edges[k]).base_asset@ == edges[i as int].quote_asset@
                        && edges[k].quote_asset@ == edges[i as int].base_asset@),
            decreases trading_pairs.len() - j,
        {
            if !found && trading_pairs[j].base_asset == trading_pairs[i].quote_asset
                && trading_pairs[j].quote_asset == trading_pairs[i].base_asset {
                found = true;
            }
            j = j + 1;
        }
        if !found {
            proof {
                let q = edges[i as int].quote_asset@;
                let b = edges[i as int].base_asset@;
                if is_edge(edges, q, b) {
                    let k = choose|k: int|
                        0 <= k < edges.len() && (#[trigger] edges[k]).base_asset@ == q && edges[k].quote_asset@ == b;
                    assert(!(edges[k].base_asset@ == q && edges[k].quote_asset@ == b));
                }
            }
            return Some(i);
        }
        i = i + 1;
    }
    None
}

/// Whether every pair has its reverse in the list.
pub fn trading_pairs_reversible(trading_pairs: &Vec<TradingPair>) -> (r: bool)
    ensures
        r == reversible(trading_pairs@),
{
    find_non_reversible(trading_pairs).is_none()
}

pub(crate) fn contains_base(trading_pairs: &Vec<TradingPair>, x: &String) -> (r: bool)
    ensures
        r == is_base(trading_pairs@, x@),
{
    let mut i: usize = 0;
    while i < trading_pairs.len()
        invariant
            0 <= i <= trading_pairs.len(),
            forall|k: int| 0 <= k < i ==> (#[trigger] trading_pairs@[k]).base_asset@ != x@,
        decreases trading_pairs.len() - i,
    {
        if trading_pairs[i].base_asset == *x {
            return true;
        }
        i = i + 1;
    }
    false
}

/// Checks, in this order, that the list is not empty, that no pair trades an
/// asset for itself, that every pair has its reverse, that both assets are
/// bases of some pair, and that they are connected.
pub fn validate_input(trading_pairs: &Vec<TradingPair>, starting_asset: &str, final_asset: &str) -> (r: Result<(), ValidationError>)
    ensures
        r.is_ok() <==> valid_input(trading_pairs@, starting_asset@, final_asset@),
        match r {
            Ok(_) => true,
            Err(ValidationError::EmptyInput) => trading_pairs.len() == 0,
            Err(ValidationError::SelfPair(a, x)) => trading_pairs.len() > 0 && exists|i: int|
                0 <= i < trading_pairs.len() && (#[trigger] trading_pairs@[i]).base_asset@ == a@
                    && trading_pairs@[i].quote_asset@ == a@ && trading_pairs@[i].exchange@ == x@,
            Err(ValidationError::NonReversiblePair(b, q)) => {
                &&& trading_pairs.len() > 0
                &&& no_self_pair(trading_pairs@)
                &&& is_edge(trading_pairs@, b@, q@)
                &&& !is_edge(trading_pairs@, q@, b@)
            },
            Err(ValidationError::UnknownAsset(a)) => {
                &&& trading_pairs.len() > 0
                &&& no_self_pair(trading_pairs@)
                &&& reversible(trading_pairs@)
                &&& if is_base(trading_pairs@, starting_asset@) {
                    a@ == final_asset@ && !is_base(trading_pairs@, final_asset@)
                } else {
                    a@ == starting_asset@
                }
            },
            Err(ValidationError::Unreachable(a, b)) => {
                &&& a@ == starting_asset@
                &&& b@ == final_asset@
                &&& trading_pairs.len() > 0
                &&& no_self_pair(trading_pairs@)
                &&& reversible(trading_pairs@)
                &&& is_base(trading_pairs@, starting_asset@)
                &&& is_base(trading_pairs@, final_asset@)
                &&& !connected(trading_pairs@, starting_asset@, final_asset@)
            },
        },
{
    let ghost edges = trading_pairs@;
    if trading_pairs.len() == 0 {
        return Err(ValidationError::EmptyInput);
    }
    let mut i: usize = 0;
    while i < trading_pairs.len()
        invariant
            0 <= i <= trading_pairs.len(),
            forall|k: int|
                0 <= k < i ==> (#[trigger] trading_pairs@[k]).base_asset@ != trading_pairs@[k].quote_asset@,
        decreases trading_pairs.len() - i,
    {
        let tp = &trading_pairs[i];
        if tp.base_asset == tp.quote_asset {
            return Err(ValidationError::SelfPair(tp.base_asset.clone(), tp.exchange.clone()));
        }
        i = i + 1;
    }
    match find_non_reversible(trading_pairs) {
        Some(k) => {
            let tp = &trading_pairs[k];
            proof {
                assert(is_edge(edges, edges[k as int].base_asset@, edges[k as int].quote_asset@));
            }
            return Err(ValidationError::NonReversiblePair(tp.base_asset.clone(), tp.quote_asset.clone()));
        },
        None => {},
    }
    let start = starting_asset.to_owned();
    let end = final_asset.to_owned();
    if !contains_base(trading_pairs, &start) {
        return Err(ValidationError::UnknownAsset(start));
    }
    if !contains_base(trading_pairs, &end) {
        return Err(ValidationError::UnknownAsset(end));
    }
    let cc = find_connected_component(trading_pairs, &start);
    if !contains_name(&cc, &end) {
        return Err(ValidationError::Unreachable(start, end));
    }
    Ok(())
}

/// The pairs of `edges` but those that trade `b` into `q`.
pub open spec fn without_direction(edges: Seq<TradingPair>, b: Seq<char>, q: Seq<char>) -> Seq<TradingPair> {
    edges.filter(other_direction(b, q))
}

/// The pair does not trade `b` into `q`.
pub open spec fn other_direction(b: Seq<char>, q: Seq<char>) -> spec_fn(TradingPair) -> bool {
    |p: TradingPair| !(p.base_asset@ == b && p.quote_asset@ == q)
}

/// Taking out of a list in which every pair has its reverse all the pairs of
/// one direction between two distinct assets leaves a list in which some pair
/// has none.
pub proof fn lemma_removing_direction_breaks_reversibility(edges: Seq<TradingPair>, i: int)
    requires
        0 <= i < edges.len(),
        reversible(edges),
        edges[i].base_asset@ != edges[i].quote_asset@,
    ensures
        !reversible(without_direction(edges, edges[i].base_asset@, edges[i].quote_asset@)),
{
    let b = edges[i].base_asset@;
    let q = edges[i].quote_asset@;
    let pred = other_direction(b, q);
    let f = without_direction(edges, b, q);
    assert(is_edge(edges, q, b));
    let j = choose|j: int| 0 <= j < edges.len() && (#[trigger] edges[j]).base_asset@ == q && edges[j].quote_asset@ == b;
    assert(pred(edges[j]));
    edges.lemma_filter_contains(pred, j);
    let t = choose|t: int| 0 <= t < f.len() && f[t] == edges[j];
    if reversible(f) {
        assert(is_edge(f, f[t].quote_asset@, f[t].base_asset@));
        let u = choose|u: int| 0 <= u < f.len() && (#[trigger] f[u]).base_asset@ == b && f[u].quote_asset@ == q;
        edges.lemma_filter_pred(pred, u);
    }
}

} // verus!
