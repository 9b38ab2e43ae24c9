//! A numbered view of the assets of a pair list and of its one-trade steps.
use vstd::prelude::*;
use crate::pair::{TradingPair, Rate, is_edge, mentions, best_rate, hop_rate};
use crate::graph::is_asset;
use crate::seqs::{names, contains_name};

verus! {

/// The assets of a pair list, numbered, with the assets reachable from each
/// in one trade: `next[a]` lists, once each, the numbers of the assets that
/// `names[a]` can be traded into.
pub struct Connections {
    pub names: Vec<String>,
    pub next: Vec<Vec<usize>>,
}

impl Connections {
    pub open spec fn name(&self, i: int) -> Seq<char> {
        self.names@[i]@
    }

    /// `b` is in `next[a]`.
    pub open spec fn step(&self, a: usize, b: usize) -> bool {
        self.next@[a as int]@.contains(b)
    }

    /// Built from `edges`: the names are the assets of `edges` without
    /// repeats, and the steps are its pairs.
    pub open spec fn wf_for(&self, edges: Seq<TradingPair>) -> bool {
        &&& self.next.len() == self.names.len()
        &&& names(self.names@).no_duplicates()
        &&& forall|x: Seq<char>| is_asset(edges, x) <==> names(self.names@).contains(x)
        &&& forall|a: int|
            0 <= a < self.names.len() ==> (#[trigger] self.next@[a])@.no_duplicates()
                && forall|k: int| 0 <= k < self.next@[a].len() ==> #[trigger] self.next@[a]@[k] < self.names.len()
        &&& forall|a: usize, b: usize|
            a < self.names.len() && b < self.names.len() ==> (#[trigger] self.step(a, b) <==> is_edge(
                edges,
                self.name(a as int),
                self.name(b as int),
            ))
    }
}

/// The number of `x` among `v`, if it occurs.
pub fn index_of(v: &Vec<String>, x: &String) -> (r: Option<usize>)
    ensures
        r.is_none() <==> !names(v@).contains(x@),
        r matches Some(i) ==> i < v.len() && v@[i as int]@ == x@,
{
    let mut i: usize = 0;
    while i < v.len()
        invariant
            0 <= i <= v.len(),
            forall|j: int| 0 <= j < i ==> v@[j]@ != x@,
        decreases v.len() - i,
    {
        if v[i] == *x {
            assert(names(v@)[i as int] == x@);
            return Some(i);
        }
        i = i + 1;
    }
    proof {
        if names(v@).contains(x@) {
            let j = choose|j: int| 0 <= j < names(v@).len() && names(v@)[j] == x@;
            assert(v@[j]@ == x@);
        }
    }
    None
}

fn push_new_name(v: &mut Vec<String>, x: &String)
    requires
        names(old(v)@).no_duplicates(),
    ensures
        names(final(v)@).no_duplicates(),
        forall|y: Seq<char>| names(final(v)@).contains(y) <==> (names(old(v)@).contains(y) || y == x@),
        final(v)@.len() >= old(v)@.len(),
        forall|i: int| 0 <= i < old(v)@.len() ==> final(v)@[i] == old(v)@[i],
{
    let ghost v0 = v@;
    if !contains_name(v, x) {
        v.push(x.clone());
        proof {
            assert(names(v@) =~= names(v0).push(x@));
            assert forall|y: Seq<char>| names(v@).contains(y) <==> (names(v0).contains(y) || y == x@) by {
                if names(v0).contains(y) {
                    let t = choose|t: int| 0 <= t < names(v0).len() && names(v0)[t] == y;
                    assert(names(v@)[t] == y);
                }
                if y == x@ {
                    assert(names(v@)[v0.len() as int] == y);
                }
                if names(v@).contains(y) && y != x@ {
                    let t = choose|t: int| 0 <= t < names(v@).len() && names(v@)[t] == y;
                    assert(names(v0)[t] == y);
                }
            }
        }
    }
}

pub fn contains_index(v: &Vec<usize>, x: usize) -> (r: bool)
    ensures
        r == v@.contains(x),
{
    let mut i: usize = 0;
    while i < v.len()
        invariant
            0 <= i <= v.len(),
            forall|j: int| 0 <= j < i ==> v@[j] != x,
        decreases v.len() - i,
    {
        if v[i] == x {
            return true;
        }
        i = i + 1;
    }
    false
}

/// Numbers the assets of the list and lists, for each, the assets it can be
/// traded into.
pub fn get_connections(trading_pairs: &Vec<TradingPair>) -> (r: Connections)
    ensures
        r.wf_for(trading_pairs@),
{
    let ghost edges = trading_pairs@;
    let mut asset_names: Vec<String> = Vec::new();
    let mut i: usize = 0;
    while i < trading_pairs.len()
        invariant
            0 <= i <= trading_pairs.len(),
            edges == trading_pairs@,
            names(asset_names@).no_duplicates(),
            forall|y: Seq<char>|
                names(asset_names@).contains(y) <==> exists|j: int|
                    0 <= j < i && #[trigger] mentions(edges[j], y),
        decreases trading_pairs.len() - i,
    {
        let ghost a0 = asset_names@;
        push_new_name(&mut asset_names, &trading_pairs[i].base_asset);
        push_new_name(&mut asset_names, &trading_pairs[i].quote_asset);
        proof {
            assert forall|y: Seq<char>| #[trigger] names(asset_names@).contains(y) <==> (names(a0).contains(y)
                || y == edges[i as int].base_asset@ || y == edges[i as int].quote_asset@) by {}
            assert forall|y: Seq<char>|
                names(asset_names@).contains(y) <==> exists|j: int|
                    0 <= j < i + 1 && #[trigger] mentions(edges[j], y) by {
                if exists|j: int| 0 <= j < i + 1 && #[trigger] mentions(edges[j], y) {
                    let j = choose|j: int|
                        0 <= j < i + 1 && #[trigger] mentions(edges[j], y);
                    if j < i {
                        assert(names(a0).contains(y));
                    }
                }
                if y == edges[i as int].base_asset@ || y == edges[i as int].quote_asset@ {
                    assert(mentions(edges[i as int], y));
                }
                if names(asset_names@).contains(y) && y != edges[i as int].base_asset@
                    && y != edges[i as int].quote_asset@ {
                    let j = choose|j: int|
                        0 <= j < i && #[trigger] mentions(edges[j], y);
                    assert(0 <= j < i + 1);
                }
            }
        }
        i = i + 1;
    }
    proof {
        assert forall|y: Seq<char>| is_asset(edges, y) <==> names(asset_names@).contains(y) by {
            if names(asset_names@).contains(y) {
                let j = choose|j: int| 0 <= j < i && #[trigger] mentions(edges[j], y);
            }
        }
    }
    let n = asset_names.len();
    let mut next: Vec<Vec<usize>> = Vec::new();
    let mut a: usize = 0;
    while a < n
        invariant
            0 <= a <= n,
            n == asset_names.len(),
            edges == trading_pairs@,
            names(asset_names@).no_duplicates(),
            forall|y: Seq<char>| is_asset(edges, y) <==> names(asset_names@).contains(y),
            next.len() == a,
            forall|c: int|
                0 <= c < a ==> (#[trigger] next@[c])@.no_duplicates() && forall|k: int|
                    0 <= k < next@[c].len() ==> #[trigger] next@[c]@[k] < n,
            forall|c: int, b: usize|
                0 <= c < a && b < n ==> (#[trigger] next@[c]@.contains(b) <==> is_edge(
                    edges,
                    asset_names@[c]@,
                    asset_names@[b as int]@,
                )),
        decreases n - a,
    {
        let mut row: Vec<usize> = Vec::new();
        let mut j: usize = 0;
        while j < trading_pairs.len()
            invariant
                0 <= a < n,
                0 <= j <= trading_pairs.len(),
                n == asset_names.len(),
                edges == trading_pairs@,
                names(asset_names@).no_duplicates(),
                forall|y: Seq<char>| is_asset(edges, y) <==> names(asset_names@).contains(y),
                row@.no_duplicates(),
                forall|k: int| 0 <= k < row.len() ==> #[trigger] row@[k] < n,
                forall|b: usize|
                    b < n ==> (#[trigger] row@.contains(b) <==> exists|t: int|
                        0 <= t < j && (#[trigger] edges[t]).base_asset@ == asset_names@[a as int]@
                            && edges[t].quote_asset@ == asset_names@[b as int]@),
            decreases trading_pairs.len() - j,
        {
            let ghost row0 = row@;
            let ghost mut hit: int = -1;
            if trading_pairs[j].base_asset == asset_names[a] {
                proof {
                    assert(mentions(edges[j as int], edges[j as int].quote_asset@));
                    assert(is_asset(edges, edges[j as int].quote_asset@));
                }
                let b = index_of(&asset_names, &trading_pairs[j].quote_asset).unwrap();
                if !contains_index(&row, b) {
                    row.push(b);
                    assert(row@[row@.len() - 1] == b);
                }
                proof {
                    hit = b as int;
                    assert(row@.contains(b));
                }
            }
            proof {
                let qj = edges[j as int].quote_asset@;
                let hit_fact = hit >= 0 ==> (hit < n && row@.contains(hit as usize) && asset_names@[hit]@ == qj
                    && edges[j as int].base_asset@ == asset_names@[a as int]@ && (row@ == row0 || row@ == row0.push(hit as usize)));
                assert(hit_fact);
                assert(hit < 0 ==> row@ == row0 && edges[j as int].base_asset@ != asset_names@[a as int]@);
                assert forall|b: usize|
                    b < n implies (#[trigger] row@.contains(b) <==> exists|t: int|
                        0 <= t < j + 1 && (#[trigger] edges[t]).base_asset@ == asset_names@[a as int]@
                            && edges[t].quote_asset@ == asset_names@[b as int]@) by {
                    if row0.contains(b) {
                        let t = choose|t: int|
                            0 <= t < j && (#[trigger] edges[t]).base_asset@ == asset_names@[a as int]@
                                && edges[t].quote_asset@ == asset_names@[b as int]@;
                        assert(0 <= t < j + 1);
                        let u = choose|u: int| 0 <= u < row0.len() && row0[u] == b;
                        if row@ != row0 {
                            assert(row@[u] == b);
                        }
                    } else if row@.contains(b) {
                        let u = choose|u: int| 0 <= u < row@.len() && row@[u] == b;
                        assert(hit >= 0);
                        if row@ == row0 {
                            assert(row0[u] == b);
                        }
                        assert(row@ == row0.push(hit as usize));
                        assert(u == row0.len());
                        assert(b == hit);
                        assert(edges[j as int].base_asset@ == asset_names@[a as int]@
                            && edges[j as int].quote_asset@ == asset_names@[b as int]@);
                    } else {
                        if exists|t: int|
                            0 <= t < j + 1 && (#[trigger] edges[t]).base_asset@ == asset_names@[a as int]@
                                && edges[t].quote_asset@ == asset_names@[b as int]@ {
                            let t = choose|t: int|
                                0 <= t < j + 1 && (#[trigger] edges[t]).base_asset@ == asset_names@[a as int]@
                                    && edges[t].quote_asset@ == asset_names@[b as int]@;
                            if t < j {
                                assert(row0.contains(b));
                            } else {
                                assert(hit >= 0);
                                assert(names(asset_names@)[hit] == names(asset_names@)[b as int]);
                            }
                        }
                    }
                }
            }
            j = j + 1;
        }
        proof {
            assert forall|b: usize| b < n implies (#[trigger] row@.contains(b) <==> is_edge(
                edges,
                asset_names@[a as int]@,
                asset_names@[b as int]@,
            )) by {
                if is_edge(edges, asset_names@[a as int]@, asset_names@[b as int]@) {
                    let t = choose|t: int|
                        0 <= t < edges.len() && (#[trigger] edges[t]).base_asset@ == asset_names@[a as int]@
                            && edges[t].quote_asset@ == asset_names@[b as int]@;
                    assert(0 <= t < j && edges[t].base_asset@ == asset_names@[a as int]@
                            && edges[t].quote_asset@ == asset_names@[b as int]@);
                }
            }
        }
        next.push(row);
        a = a + 1;
    }
    let r = Connections { names: asset_names, next };
    proof {
        assert forall|x: Seq<char>| is_asset(edges, x) <==> names(r.names@).contains(x) by {}
        assert forall|a: usize, b: usize|
            a < r.names.len() && b < r.names.len() implies (#[trigger] r.step(a, b) <==> is_edge(
                edges,
                r.name(a as int),
                r.name(b as int),
            )) by {
            assert(next@[a as int]@.contains(b) <==> is_edge(edges, asset_names@[a as int]@, asset_names@[b as int]@));
        }
    }
    r
}

/// The lowest rate among the pairs that trade `b` into `q`, if there is one.
pub fn best_rate_between(trading_pairs: &Vec<TradingPair>, b: &String, q: &String) -> (r: Option<Rate>)
    ensures
        r == best_rate(trading_pairs@, trading_pairs@.len() as int, b@, q@),
{
    let mut best: Option<Rate> = None;
    let mut i: usize = 0;
    while i < trading_pairs.len()
        invariant
            0 <= i <= trading_pairs.len(),
            best == best_rate(trading_pairs@, i as int, b@, q@),
        decreases trading_pairs.len() - i,
    {
        let tp = &trading_pairs[i];
        if tp.base_asset == *b && tp.quote_asset == *q {
            match best {
                Some(r) => {
                    if tp.rate.is_less(&r) {
                        best = Some(tp.rate);
                    }
                },
                None => {
                    best = Some(tp.rate);
                },
            }
        }
        i = i + 1;
    }
    best
}

/// For each step `next[a][k]`, the rate that values it: the lowest rate
/// among the pairs from `names[a]` into `names[next[a][k]]`.
pub fn get_rate_map(trading_pairs: &Vec<TradingPair>, connections: &Connections) -> (r: Vec<Vec<Rate>>)
    requires
        connections.wf_for(trading_pairs@),
    ensures
        r.len() == connections.names.len(),
        forall|a: int|
            0 <= a < r.len() ==> (#[trigger] r@[a]).len() == connections.next@[a].len() && forall|k: int|
                0 <= k < r@[a].len() ==> #[trigger] r@[a]@[k] == hop_rate(
                    trading_pairs@,
                    connections.name(a),
                    connections.name(connections.next@[a]@[k] as int),
                ),
{
    let n = connections.names.len();
    let mut rate_map: Vec<Vec<Rate>> = Vec::new();
    let mut a: usize = 0;
    while a < n
        invariant
            0 <= a <= n,
            n == connections.names.len(),
            connections.wf_for(trading_pairs@),
            rate_map.len() == a,
            forall|c: int|
                0 <= c < a ==> (#[trigger] rate_map@[c]).len() == connections.next@[c].len() && forall|k: int|
                    0 <= k < rate_map@[c].len() ==> #[trigger] rate_map@[c]@[k] == hop_rate(
                        trading_pairs@,
                        connections.name(c),
                        connections.name(connections.next@[c]@[k] as int),
                    ),
        decreases n - a,
    {
        let row = &connections.next[a];
        let mut rates: Vec<Rate> = Vec::new();
        let mut k: usize = 0;
        while k < row.len()
            invariant
                0 <= a < n,
                n == connections.names.len(),
                connections.wf_for(trading_pairs@),
                row == connections.next@[a as int],
                0 <= k <= row.len(),
                rates.len() == k,
                forall|t: int|
                    0 <= t < k ==> #[trigger] rates@[t] == hop_rate(
                        trading_pairs@,
                        connections.name(a as int),
                        connections.name(row@[t] as int),
                    ),
            decreases row.len() - k,
        {
            let b = row[k];
            let r = match best_rate_between(trading_pairs, &connections.names[a], &connections.names[b]) {
                Some(r) => r,
                None => Rate { num: 1, den: 1 },
            };
            rates.push(r);
            k = k + 1;
        }
        rate_map.push(rates);
        a = a + 1;
    }
    rate_map
}

} // verus!
