//! Routing a quantity through the pair list within the pairs' capacities.
use vstd::prelude::*;
use crate::pair::{TradingPair, lemma_less_trans, convert, convert_amount, valid_rates, is_edge, hop_rate, best_rate};
use crate::rate::{do_optimize_rate, is_trade_path, is_best_path, path_value};
use crate::validate::{contains_base, is_base};
use crate::seqs::names;

verus! {

/// One executed hop: `from_amount` of `from` traded on `exchange` into
/// `to_amount` of `to`.
#[derive(Debug)]
pub struct Trade {
    pub exchange: String,
    pub to: String,
    pub to_amount: u64,
    pub from: String,
    pub from_amount: u64,
}

/// A quantity of an asset still to be moved on.
pub struct NetOptimData {
    pub asset: String,
    pub amount: u64,
}

/// Equal in every field.
pub open spec fn same_pair(a: TradingPair, b: TradingPair) -> bool {
    &&& a.exchange@ == b.exchange@
    &&& a.base_asset@ == b.base_asset@
    &&& a.quote_asset@ == b.quote_asset@
    &&& a.rate == b.rate
    &&& a.capacity == b.capacity
}

/// `p` is, field for field, one of the pairs of `edges`.
pub open spec fn in_list(edges: Seq<TradingPair>, p: TradingPair) -> bool {
    exists|j: int| 0 <= j < edges.len() && same_pair(#[trigger] edges[j], p)
}

/// `t` runs on the pair `p`: same exchange, base and quote, within its
/// capacity and at its rate.
pub open spec fn trade_on(t: Trade, p: TradingPair) -> bool {
    &&& t.exchange@ == p.exchange@
    &&& t.from@ == p.base_asset@
    &&& t.to@ == p.quote_asset@
    &&& t.from_amount <= p.capacity
    &&& t.to_amount == convert(t.from_amount, p.rate)
}

/// `t` runs on some pair of `edges`.
pub open spec fn trade_valid(edges: Seq<TradingPair>, t: Trade) -> bool {
    exists|j: int| 0 <= j < edges.len() && trade_on(t, #[trigger] edges[j])
}

/// Two trades on the same (exchange, base, quote) triple.
pub open spec fn same_triple(t: Trade, u: Trade) -> bool {
    t.exchange@ == u.exchange@ && t.from@ == u.from@ && t.to@ == u.to@
}

/// The pair has the triple of the trade.
pub open spec fn pair_of_trade(p: TradingPair, t: Trade) -> bool {
    p.exchange@ == t.exchange@ && p.base_asset@ == t.from@ && p.quote_asset@ == t.to@
}

/// The total that `trades` deliver into `end`.
pub open spec fn delivered(trades: Seq<Trade>, end: Seq<char>) -> int
    decreases trades.len(),
{
    if trades.len() == 0 {
        0
    } else {
        delivered(trades.drop_last(), end) + if trades.last().to@ == end {
            trades.last().to_amount as int
        } else {
            0
        }
    }
}

/// The total of the pending quantities held in `end`.
spec fn pending_at(pending: Seq<NetOptimData>, end: Seq<char>) -> int
    decreases pending.len(),
{
    if pending.len() == 0 {
        0
    } else {
        pending_at(pending.drop_last(), end) + if pending.last().asset@ == end {
            pending.last().amount as int
        } else {
            0
        }
    }
}

proof fn lemma_delivered_push(trades: Seq<Trade>, t: Trade, end: Seq<char>)
    ensures
        delivered(trades.push(t), end) == delivered(trades, end) + if t.to@ == end {
            t.to_amount as int
        } else {
            0
        },
{
    assert(trades.push(t).drop_last() =~= trades);
}

proof fn lemma_pending_push(pending: Seq<NetOptimData>, d: NetOptimData, end: Seq<char>)
    ensures
        pending_at(pending.push(d), end) == pending_at(pending, end) + if d.asset@ == end {
            d.amount as int
        } else {
            0
        },
{
    assert(pending.push(d).drop_last() =~= pending);
}

fn copy_pair(p: &TradingPair) -> (r: TradingPair)
    ensures
        same_pair(r, *p),
{
    TradingPair {
        exchange: p.exchange.clone(),
        quote_asset: p.quote_asset.clone(),
        base_asset: p.base_asset.clone(),
        rate: p.rate,
        capacity: p.capacity,
    }
}

/// The pair at `k` trades `from` into `to`.
pub open spec fn on_hop(edges: Seq<TradingPair>, k: int, from: Seq<char>, to: Seq<char>) -> bool {
    0 <= k < edges.len() && edges[k].base_asset@ == from && edges[k].quote_asset@ == to
}

/// The pair at `k` is the first, among the pairs from `from` into `to`, with
/// the lowest rate.
pub open spec fn first_lowest(edges: Seq<TradingPair>, from: Seq<char>, to: Seq<char>, k: int) -> bool {
    &&& on_hop(edges, k, from, to)
    &&& forall|j: int| #[trigger] on_hop(edges, j, from, to) ==> !edges[j].rate.less(edges[k].rate)
    &&& forall|j: int| #[trigger] on_hop(edges, j, from, to) && j < k ==> edges[k].rate.less(edges[j].rate)
}

/// The position of the first pair from `from` into `to` with the lowest rate.
pub fn best_pair_index(trading_pairs: &Vec<TradingPair>, from: &String, to: &String) -> (r: Option<usize>)
    requires
        valid_rates(trading_pairs@),
    ensures
        r.is_some() <==> is_edge(trading_pairs@, from@, to@),
        r matches Some(k) ==> first_lowest(trading_pairs@, from@, to@, k as int) && trading_pairs@[k as int].rate
            == hop_rate(trading_pairs@, from@, to@),
{
    let ghost edges = trading_pairs@;
    let mut best: Option<usize> = None;
    let mut i: usize = 0;
    while i < trading_pairs.len()
        invariant
            0 <= i <= trading_pairs.len(),
            edges == trading_pairs@,
            best.is_some() <==> best_rate(edges, i as int, from@, to@).is_some(),
            best matches Some(k) ==> k < i && edges[k as int].base_asset@ == from@ && edges[k as int].quote_asset@
                == to@ && best_rate(edges, i as int, from@, to@) == Some(edges[k as int].rate),
            forall|k: int|
                0 <= k < i ==> !((#[trigger] edges[k]).base_asset@ == from@ && edges[k].quote_asset@ == to@)
                    || best.is_some(),
            valid_rates(edges),
            best matches Some(k) ==> (forall|j: int|
                #[trigger] on_hop(edges, j, from@, to@) && j < i ==> !edges[j].rate.less(edges[k as int].rate)) && (
            forall|j: int| #[trigger] on_hop(edges, j, from@, to@) && j < k ==> edges[k as int].rate.less(edges[j].rate)),
        decreases trading_pairs.len() - i,
    {
        let tp = &trading_pairs[i];
        if tp.base_asset == *from && tp.quote_asset == *to {
            match best {
                Some(k) => {
                    if tp.rate.is_less(&trading_pairs[k].rate) {
                        best = Some(i);
                        proof {
                            assert forall|j: int| #[trigger] on_hop(edges, j, from@, to@) && j < i + 1 implies !edges[j].rate.less(
                                edges[i as int].rate,
                            ) && (j < i ==> edges[i as int].rate.less(edges[j].rate)) by {
                                if j < i {
                                    assert(edges[j].rate.valid() && edges[k as int].rate.valid() && edges[i as int].rate.valid());
                                    lemma_less_trans(edges[i as int].rate, edges[k as int].rate, edges[j].rate);
                                }
                            }
                        }
                    }
                },
                None => {
                    best = Some(i);
                },
            }
        }
        i = i + 1;
    }
    proof {
        if is_edge(edges, from@, to@) {
            let k = choose|k: int|
                0 <= k < edges.len() && (#[trigger] edges[k]).base_asset@ == from@ && edges[k].quote_asset@ == to@;
            assert(!(edges[k].base_asset@ == from@ && edges[k].quote_asset@ == to@) || best.is_some());
        }
        if let Some(k) = best {
            assert(edges[k as int].base_asset@ == from@ && edges[k as int].quote_asset@ == to@);
        }
    }
    best
}

/// Of the pairs from `from` into `to`, the first with the lowest rate.
pub fn get_best_pair(trading_pairs: &Vec<TradingPair>, from: &String, to: &String) -> (r: Option<TradingPair>)
    requires
        valid_rates(trading_pairs@),
    ensures
        r.is_some() <==> is_edge(trading_pairs@, from@, to@),
        r matches Some(tp) ==> exists|k: int|
            first_lowest(trading_pairs@, from@, to@, k) && same_pair(#[trigger] trading_pairs@[k], tp),
        r matches Some(tp) ==> tp.rate == hop_rate(trading_pairs@, from@, to@),
{
    match best_pair_index(trading_pairs, from, to) {
        Some(k) => {
            let tp = copy_pair(&trading_pairs[k]);
            proof {
                assert(same_pair(trading_pairs@[k as int], tp));
            }
            Some(tp)
        },
        None => None,
    }
}

/// The total capacity of a list of pairs.
pub open spec fn cap_sum(pairs: Seq<TradingPair>) -> int
    decreases pairs.len(),
{
    if pairs.len() == 0 {
        0
    } else {
        cap_sum(pairs.drop_last()) + pairs.last().capacity as int
    }
}

proof fn lemma_cap_sum_push(pairs: Seq<TradingPair>, p: TradingPair)
    ensures
        cap_sum(pairs.push(p)) == cap_sum(pairs) + p.capacity as int,
{
    assert(pairs.push(p).drop_last() =~= pairs);
}

proof fn lemma_cap_sum_nonneg(pairs: Seq<TradingPair>)
    ensures
        cap_sum(pairs) >= 0,
    decreases pairs.len(),
{
    if pairs.len() > 0 {
        lemma_cap_sum_nonneg(pairs.drop_last());
    }
}

proof fn lemma_cap_sum_concat(a: Seq<TradingPair>, b: Seq<TradingPair>)
    ensures
        cap_sum(a + b) == cap_sum(a) + cap_sum(b),
    decreases b.len(),
{
    if b.len() > 0 {
        lemma_cap_sum_concat(a, b.drop_last());
        assert((a + b).drop_last() =~= a + b.drop_last());
    } else {
        assert(a + b =~= a);
    }
}

/// The total splits around position `i`.
proof fn lemma_cap_sum_split(pairs: Seq<TradingPair>, i: int)
    requires
        0 <= i < pairs.len(),
    ensures
        cap_sum(pairs) == cap_sum(pairs.subrange(0, i)) + pairs[i].capacity as int + cap_sum(
            pairs.subrange(i + 1, pairs.len() as int),
        ),
{
    let a = pairs.subrange(0, i);
    let b = pairs.subrange(i + 1, pairs.len() as int);
    assert(pairs =~= a.push(pairs[i]) + b);
    lemma_cap_sum_concat(a.push(pairs[i]), b);
    lemma_cap_sum_push(a, pairs[i]);
}

/// The pairs of `w` but those on the (exchange, base, quote) triple of `t`,
/// in their order.
pub open spec fn without_triple(w: Seq<TradingPair>, t: Trade) -> Seq<TradingPair>
    decreases w.len(),
{
    if w.len() == 0 {
        w
    } else {
        let r = without_triple(w.drop_last(), t);
        if pair_of_trade(w.last(), t) {
            r
        } else {
            r.push(w.last())
        }
    }
}

/// The total that `trades` take out of `x`.
pub open spec fn out_of(trades: Seq<Trade>, x: Seq<char>) -> int
    decreases trades.len(),
{
    if trades.len() == 0 {
        0
    } else {
        out_of(trades.drop_last(), x) + if trades.last().from@ == x {
            trades.last().from_amount as int
        } else {
            0
        }
    }
}

/// The total that `trades` bring into `x`.
pub open spec fn into(trades: Seq<Trade>, x: Seq<char>) -> int
    decreases trades.len(),
{
    if trades.len() == 0 {
        0
    } else {
        into(trades.drop_last(), x) + if trades.last().to@ == x {
            trades.last().to_amount as int
        } else {
            0
        }
    }
}

/// The pairs of `pairs` but those on the triple of `t`.
fn remove_triple(pairs: &Vec<TradingPair>, t: &Trade) -> (r: Vec<TradingPair>)
    ensures
        r.len() <= pairs.len(),
        cap_sum(r@) <= cap_sum(pairs@),
        (exists|k: int| 0 <= k < pairs.len() && pair_of_trade(#[trigger] pairs@[k], *t)) ==> r.len() < pairs.len(),
        forall|i: int| 0 <= i < r.len() ==> in_list(pairs@, #[trigger] r@[i]) && !pair_of_trade(r@[i], *t),
        copies(r@, without_triple(pairs@, *t)),
{
    let mut r: Vec<TradingPair> = Vec::new();
    let mut i: usize = 0;
    while i < pairs.len()
        invariant
            0 <= i <= pairs.len(),
            r.len() <= i,
            cap_sum(r@) <= cap_sum(pairs@.subrange(0, i as int)),
            (exists|k: int| 0 <= k < i && pair_of_trade(#[trigger] pairs@[k], *t)) ==> r.len() < i,
            forall|j: int| 0 <= j < r.len() ==> in_list(pairs@, #[trigger] r@[j]) && !pair_of_trade(r@[j], *t),
            copies(r@, without_triple(pairs@.subrange(0, i as int), *t)),
        decreases pairs.len() - i,
    {
        let p = &pairs[i];
        let ghost r0 = r@;
        proof {
            assert(pairs@.subrange(0, i + 1) =~= pairs@.subrange(0, i as int).push(pairs@[i as int]));
            assert(pairs@.subrange(0, i + 1).drop_last() =~= pairs@.subrange(0, i as int));
            lemma_cap_sum_push(pairs@.subrange(0, i as int), pairs@[i as int]);
        }
        if !(p.exchange == t.exchange && p.base_asset == t.from && p.quote_asset == t.to) {
            r.push(copy_pair(p));
            proof {
                lemma_cap_sum_push(r0, r@.last());
                assert(r@ =~= r0.push(r@.last()));
                assert(same_pair(pairs@[i as int], r@[r.len() - 1]));
                assert forall|j: int| 0 <= j < r.len() implies in_list(pairs@, #[trigger] r@[j]) && !pair_of_trade(r@[j], *t) by {
                    if j < r0.len() {
                        assert(r@[j] == r0[j]);
                    }
                }
                let wt = without_triple(pairs@.subrange(0, i as int), *t);
                assert(without_triple(pairs@.subrange(0, i + 1), *t) == wt.push(pairs@[i as int]));
                assert forall|j: int| 0 <= j < r@.len() implies same_pair(#[trigger] r@[j], wt.push(pairs@[i as int])[j]) by {
                    if j < r0.len() {
                        assert(r@[j] == r0[j]);
                    }
                }
            }
        }
        proof {
            if exists|k: int| 0 <= k < i + 1 && pair_of_trade(#[trigger] pairs@[k], *t) {
                let k = choose|k: int| 0 <= k < i + 1 && pair_of_trade(#[trigger] pairs@[k], *t);
                if k < i {
                    assert(exists|k: int| 0 <= k < i && pair_of_trade(#[trigger] pairs@[k], *t));
                }
            }
        }
        i = i + 1;
    }
    assert(pairs@.subrange(0, i as int) =~= pairs@);
    r
}

/// `w` is `e` pair for pair.
pub open spec fn copies(w: Seq<TradingPair>, e: Seq<TradingPair>) -> bool {
    w.len() == e.len() && forall|i: int| 0 <= i < w.len() ==> same_pair(#[trigger] w[i], e[i])
}

proof fn lemma_copies_best_rate(w: Seq<TradingPair>, e: Seq<TradingPair>, n: int, x: Seq<char>, y: Seq<char>)
    requires
        copies(w, e),
        n <= w.len(),
    ensures
        best_rate(w, n, x, y) == best_rate(e, n, x, y),
    decreases n,
{
    if n > 0 {
        lemma_copies_best_rate(w, e, n - 1, x, y);
        assert(same_pair(w[n - 1], e[n - 1]));
    }
}

proof fn lemma_copies_path_value(w: Seq<TradingPair>, e: Seq<TradingPair>, p: Seq<Seq<char>>)
    requires
        copies(w, e),
    ensures
        path_value(w, p) == path_value(e, p),
    decreases p.len(),
{
    if p.len() > 1 {
        lemma_copies_path_value(w, e, p.drop_last());
        lemma_copies_best_rate(w, e, w.len() as int, p[p.len() - 2], p.last());
    }
}

proof fn lemma_copies_edge(w: Seq<TradingPair>, e: Seq<TradingPair>, x: Seq<char>, y: Seq<char>)
    requires
        copies(w, e),
    ensures
        is_edge(w, x, y) == is_edge(e, x, y),
{
    if is_edge(w, x, y) {
        let j = choose|j: int| 0 <= j < w.len() && (#[trigger] w[j]).base_asset@ == x && w[j].quote_asset@ == y;
        assert(same_pair(w[j], e[j]));
    }
    if is_edge(e, x, y) {
        let j = choose|j: int| 0 <= j < e.len() && (#[trigger] e[j]).base_asset@ == x && e[j].quote_asset@ == y;
        assert(same_pair(w[j], e[j]));
    }
}

proof fn lemma_copies_trade_path(w: Seq<TradingPair>, e: Seq<TradingPair>, p: Seq<Seq<char>>, s: Seq<char>, t: Seq<char>)
    requires
        copies(w, e),
    ensures
        is_trade_path(w, p, s, t) == is_trade_path(e, p, s, t),
{
    assert forall|i: int| 0 <= i < p.len() - 1 implies is_edge(w, #[trigger] p[i], p[i + 1]) == is_edge(e, p[i], p[i + 1]) by {
        lemma_copies_edge(w, e, p[i], p[i + 1]);
    }
}

proof fn lemma_copies_best_path(w: Seq<TradingPair>, e: Seq<TradingPair>, s: Seq<char>, t: Seq<char>, v: u64, p: Seq<Seq<char>>)
    requires
        copies(w, e),
        is_best_path(w, s, t, v, p),
    ensures
        is_best_path(e, s, t, v, p),
{
    lemma_copies_trade_path(w, e, p, s, t);
    lemma_copies_path_value(w, e, p);
    assert forall|q: Seq<Seq<char>>| #[trigger] is_trade_path(e, q, s, t) implies path_value(e, q) <= v && (path_value(
        e,
        q,
    ) == v ==> p.len() <= q.len()) by {
        lemma_copies_trade_path(w, e, q, s, t);
        lemma_copies_path_value(w, e, q);
    }
}

proof fn lemma_copies_first_lowest(w: Seq<TradingPair>, e: Seq<TradingPair>, from: Seq<char>, to: Seq<char>, k: int)
    requires
        copies(w, e),
        first_lowest(w, from, to, k),
    ensures
        first_lowest(e, from, to, k),
{
    assert(same_pair(w[k], e[k]));
    assert forall|j: int| #[trigger] on_hop(e, j, from, to) implies !e[j].rate.less(e[k].rate) && (j < k ==> e[k].rate.less(
        e[j].rate,
    )) by {
        assert(same_pair(w[j], e[j]));
        assert(on_hop(w, j, from, to));
    }
}

proof fn lemma_pending_all(pending: Seq<NetOptimData>, d: NetOptimData)
    ensures
        forall|x: Seq<char>| #[trigger] pending_at(pending.push(d), x) == pending_at(pending, x) + if d.asset@ == x {
            d.amount as int
        } else {
            0
        },
{
    assert forall|x: Seq<char>| #[trigger] pending_at(pending.push(d), x) == pending_at(pending, x) + if d.asset@ == x {
        d.amount as int
    } else {
        0
    } by {
        lemma_pending_push(pending, d, x);
    }
}

proof fn lemma_flow_push(trades: Seq<Trade>, t: Trade)
    ensures
        forall|x: Seq<char>| #[trigger] out_of(trades.push(t), x) == out_of(trades, x) + if t.from@ == x {
            t.from_amount as int
        } else {
            0
        },
        forall|x: Seq<char>| #[trigger] into(trades.push(t), x) == into(trades, x) + if t.to@ == x {
            t.to_amount as int
        } else {
            0
        },
{
    assert(trades.push(t).drop_last() =~= trades);
}

/// Some trade path leads from `start` to `end`.
pub open spec fn reachable(edges: Seq<TradingPair>, start: Seq<char>, end: Seq<char>) -> bool {
    exists|p: Seq<Seq<char>>| #[trigger] is_trade_path(edges, p, start, end)
}

/// `t` is the trade the allocation starts with: out of `start`, along the
/// first hop of a best path to `end`, on the first lowest-rate pair of that hop,
/// for as much of `quantity` as the pair takes.
pub open spec fn first_trade(edges: Seq<TradingPair>, start: Seq<char>, end: Seq<char>, quantity: u64, t: Trade) -> bool {
    &&& t.from@ == start
    &&& exists|v: u64, p: Seq<Seq<char>>| #[trigger] is_best_path(edges, start, end, v, p) && p[1] == t.to@
    &&& exists|j: int|
        0 <= j < edges.len() && trade_on(t, #[trigger] edges[j]) && first_lowest(edges, start, t.to@, j)
            && t.from_amount == vstd::math::min(quantity as int, edges[j].capacity as int)
}

/// The quantity held at the start and delivered into the final asset when
/// both are one asset.
pub open spec fn held_at_end(start: Seq<char>, end: Seq<char>, quantity: u64) -> int {
    if start == end {
        quantity as int
    } else {
        0
    }
}

/// What happens to a pair once a trade has run on it.
#[derive(Clone, Copy, Debug, PartialEq, Eq, Structural)]
pub enum CapacityPolicy {
    /// Every pair on the traded (exchange, base, quote) triple leaves the
    /// list, whatever part of the capacity the trade used.
    RetireAfterUse,
    /// The traded pair keeps what is left of its capacity, and leaves the
    /// list once that is nothing.
    DrawDown,
}

/// `p` is `e` with at most its capacity.
pub open spec fn drawn_from(p: TradingPair, e: TradingPair) -> bool {
    &&& p.exchange@ == e.exchange@
    &&& p.base_asset@ == e.base_asset@
    &&& p.quote_asset@ == e.quote_asset@
    &&& p.rate == e.rate
    &&& p.capacity <= e.capacity
}

pub open spec fn within_list(edges: Seq<TradingPair>, p: TradingPair) -> bool {
    exists|j: int| 0 <= j < edges.len() && drawn_from(p, #[trigger] edges[j])
}

/// The part of the first `n` trades that `orig` assigns to pair `k`.
pub open spec fn used_upto(trades: Seq<Trade>, orig: Seq<int>, k: int, n: int) -> int
    decreases n,
{
    if n <= 0 {
        0
    } else {
        used_upto(trades, orig, k, n - 1) + if orig[n - 1] == k {
            trades[n - 1].from_amount as int
        } else {
            0
        }
    }
}

/// Each trade runs on the pair of `edges` that `orig` assigns to it, and the
/// trades assigned to a pair take in all at most its capacity.
pub open spec fn draws_within(edges: Seq<TradingPair>, trades: Seq<Trade>, orig: Seq<int>) -> bool {
    &&& orig.len() == trades.len()
    &&& forall|i: int|
        0 <= i < trades.len() ==> 0 <= #[trigger] orig[i] < edges.len() && trade_on(trades[i], edges[orig[i]])
    &&& forall|k: int| 0 <= k < edges.len() ==> used_upto(trades, orig, k, trades.len() as int) <= (#[trigger] edges[k]).capacity
}

/// The trades can be assigned to pairs of `edges` so that each runs on its
/// pair and no pair gives more than its capacity.
pub open spec fn capacity_respected(edges: Seq<TradingPair>, trades: Seq<Trade>) -> bool {
    exists|orig: Seq<int>| #[trigger] draws_within(edges, trades, orig)
}

proof fn lemma_used_prefix(t: Seq<Trade>, o: Seq<int>, t2: Seq<Trade>, o2: Seq<int>, k: int, n: int)
    requires
        0 <= n <= t.len(),
        n <= o.len(),
        t.len() <= t2.len(),
        o.len() <= o2.len(),
        forall|i: int| 0 <= i < t.len() ==> t2[i] == t[i],
        forall|i: int| 0 <= i < o.len() ==> o2[i] == o[i],
    ensures
        used_upto(t2, o2, k, n) == used_upto(t, o, k, n),
    decreases n,
{
    if n > 0 {
        lemma_used_prefix(t, o, t2, o2, k, n - 1);
    }
}

/// A state of the allocation: the pairs left, the quantities still to move
/// (the last moves next), the trades so far and the total delivered.
pub type NetState = (Seq<TradingPair>, Seq<NetOptimData>, Seq<Trade>, int);

/// `t` follows from `s` when the next pending quantity `d` is traded on the
/// pair at `k` of the pairs left `w`: as much of it as the pair takes moves
/// into the quote asset, that quantity is queued, then what the pair could not
/// take, and the pair is retired or drawn down as `policy` says.
pub open spec fn trade_step(policy: CapacityPolicy, s: NetState, k: int, t: NetState) -> bool {
    let w = s.0;
    let d = s.1.last();
    let rest = s.1.drop_last();
    let e = w[k];
    let moved = if e.capacity < d.amount {
        e.capacity
    } else {
        d.amount
    };
    let out = convert(moved, e.rate);
    let nt = t.2.last();
    &&& t.3 == s.3
    &&& t.2.len() == s.2.len() + 1
    &&& t.2.drop_last() == s.2
    &&& nt.exchange@ == e.exchange@ && nt.from@ == e.base_asset@ && nt.to@ == e.quote_asset@
    &&& nt.from_amount == moved && nt.to_amount == out
    &&& t.1.len() == rest.len() + if moved < d.amount {
        2int
    } else {
        1int
    }
    &&& t.1.subrange(0, rest.len() as int) == rest
    &&& t.1[rest.len() as int].asset@ == e.quote_asset@ && t.1[rest.len() as int].amount == out
    &&& moved < d.amount ==> t.1[rest.len() as int + 1].asset@ == d.asset@ && t.1[rest.len() as int + 1].amount == d.amount - moved
    &&& policy == CapacityPolicy::RetireAfterUse ==> copies(t.0, without_triple(w, nt))
    &&& policy == CapacityPolicy::DrawDown ==> if moved == e.capacity {
        t.0 == w.remove(k)
    } else {
        &&& t.0 == w.update(k, t.0[k])
        &&& drawn_from(t.0[k], e)
        &&& t.0[k].capacity == e.capacity - moved
    }
}

/// One step of the greedy allocation toward `end`. The last pending quantity
/// is taken off. It is dropped when it is zero; added to the total when it is
/// held in `end`; dropped when its asset has no pair left or no path to `end`.
/// Otherwise it is traded on the first lowest-rate pair of the first hop of a
/// best path to `end` over the pairs left.
#[verifier::opaque]
pub open spec fn net_step(end: Seq<char>, policy: CapacityPolicy, s: NetState, t: NetState) -> bool {
    let d = s.1.last();
    let rest = s.1.drop_last();
    &&& s.1.len() > 0
    &&& if d.amount == 0 {
        t == (s.0, rest, s.2, s.3)
    } else if d.asset@ == end {
        t == (s.0, rest, s.2, s.3 + d.amount)
    } else if !is_base(s.0, d.asset@) || !reachable(s.0, d.asset@, end) {
        t == (s.0, rest, s.2, s.3)
    } else {
        exists|v: u64, p: Seq<Seq<char>>, k: int|
            #[trigger] is_best_path(s.0, d.asset@, end, v, p) && #[trigger] first_lowest(s.0, p[0], p[1], k) && trade_step(
                policy,
                s,
                k,
                t,
            )
    }
}

/// The state the allocation starts from.
pub open spec fn net_start(edges: Seq<TradingPair>, start: Seq<char>, quantity: u64, s: NetState) -> bool {
    &&& copies(s.0, edges)
    &&& s.1.len() == 1
    &&& s.1[0].asset@ == start
    &&& s.1[0].amount == quantity
    &&& s.2.len() == 0
    &&& s.3 == 0
}

/// `run` starts from the start state and goes by greedy steps.
pub open spec fn net_run(
    edges: Seq<TradingPair>,
    start: Seq<char>,
    quantity: u64,
    end: Seq<char>,
    policy: CapacityPolicy,
    run: Seq<NetState>,
) -> bool {
    &&& run.len() >= 1
    &&& net_start(edges, start, quantity, run[0])
    &&& forall|i: int| 0 <= i < run.len() - 1 ==> net_step(end, policy, #[trigger] run[i], run[i + 1])
}

/// `trades` and `net` are what a greedy run that has no quantity left to move
/// ends with (`net` saturated at `u64::MAX`).
pub open spec fn greedy_outcome(
    edges: Seq<TradingPair>,
    start: Seq<char>,
    quantity: u64,
    end: Seq<char>,
    policy: CapacityPolicy,
    net: u64,
    trades: Seq<Trade>,
) -> bool {
    exists|run: Seq<NetState>|
        #[trigger] net_run(edges, start, quantity, end, policy, run) && run.last().1.len() == 0 && run.last().2
            == trades && net as int == vstd::math::min(run.last().3, u64::MAX as int)
}

proof fn lemma_run_push(
    edges: Seq<TradingPair>,
    start: Seq<char>,
    quantity: u64,
    end: Seq<char>,
    policy: CapacityPolicy,
    run: Seq<NetState>,
    t: NetState,
)
    requires
        net_run(edges, start, quantity, end, policy, run),
        net_step(end, policy, run.last(), t),
    ensures
        net_run(edges, start, quantity, end, policy, run.push(t)),
{
    let r2 = run.push(t);
    assert forall|i: int| 0 <= i < r2.len() - 1 implies net_step(end, policy, #[trigger] r2[i], r2[i + 1]) by {
        if i < run.len() - 1 {
            assert(r2[i] == run[i] && r2[i + 1] == run[i + 1]);
        }
    }
}

/// Quantity is conserved: what has left each asset, together with what is
/// still pending there, is at most what it started with and received.
spec fn conserved(start: Seq<char>, quantity: u64, trades: Seq<Trade>, pending: Seq<NetOptimData>) -> bool {
    forall|x: Seq<char>|
        #[trigger] out_of(trades, x) + pending_at(pending, x) <= held_at_end(start, x, quantity) + into(trades, x)
}

proof fn lemma_conserve_drop(start: Seq<char>, quantity: u64, trades: Seq<Trade>, rest: Seq<NetOptimData>, d: NetOptimData)
    requires
        conserved(start, quantity, trades, rest.push(d)),
    ensures
        conserved(start, quantity, trades, rest),
{
    lemma_pending_all(rest, d);
    assert forall|x: Seq<char>|
        #[trigger] out_of(trades, x) + pending_at(rest, x) <= held_at_end(start, x, quantity) + into(trades, x) by {
        assert(out_of(trades, x) + pending_at(rest.push(d), x) <= held_at_end(start, x, quantity) + into(trades, x));
    }
}

proof fn lemma_conserve_trade(
    start: Seq<char>,
    quantity: u64,
    trades: Seq<Trade>,
    rest: Seq<NetOptimData>,
    d: NetOptimData,
    t: Trade,
    x1: NetOptimData,
    pend: Seq<NetOptimData>,
)
    requires
        conserved(start, quantity, trades, rest.push(d)),
        t.from@ == d.asset@,
        t.from_amount <= d.amount,
        x1.asset@ == t.to@,
        x1.amount == t.to_amount,
        t.from_amount == d.amount ==> pend == rest.push(x1),
        t.from_amount < d.amount ==> exists|y: NetOptimData|
            pend == rest.push(x1).push(y) && y.asset@ == d.asset@ && y.amount == d.amount - t.from_amount,
    ensures
        conserved(start, quantity, trades.push(t), pend),
{
    lemma_pending_all(rest, d);
    lemma_pending_all(rest, x1);
    lemma_flow_push(trades, t);
    if t.from_amount < d.amount {
        let y = choose|y: NetOptimData|
            pend == rest.push(x1).push(y) && y.asset@ == d.asset@ && y.amount == d.amount - t.from_amount;
        lemma_pending_all(rest.push(x1), y);
    }
    assert forall|x: Seq<char>|
        #[trigger] out_of(trades.push(t), x) + pending_at(pend, x) <= held_at_end(start, x, quantity) + into(
            trades.push(t),
            x,
        ) by {
        assert(out_of(trades, x) + pending_at(rest.push(d), x) <= held_at_end(start, x, quantity) + into(trades, x));
        assert(out_of(trades.push(t), x) == out_of(trades, x) + if t.from@ == x {
            t.from_amount as int
        } else {
            0
        });
        assert(into(trades.push(t), x) == into(trades, x) + if t.to@ == x {
            t.to_amount as int
        } else {
            0
        });
    }
}

/// The common invariants of the allocation loop.
spec fn net_inv(
    edges: Seq<TradingPair>,
    working: Seq<TradingPair>,
    trades: Seq<Trade>,
    pending: Seq<NetOptimData>,
    acc: int,
    init: int,
    end: Seq<char>,
) -> bool {
    &&& forall|i: int| 0 <= i < working.len() ==> within_list(edges, #[trigger] working[i])
    &&& forall|i: int| 0 <= i < trades.len() ==> trade_valid(edges, #[trigger] trades[i])
    &&& acc + pending_at(pending, end) == init + delivered(trades, end)
    &&& acc >= 0
    &&& cap_sum(working) >= 0
}

/// Retiring whole triples: no triple is traded twice, and no pair left is on
/// a traded triple.
spec fn retire_inv(edges: Seq<TradingPair>, working: Seq<TradingPair>, trades: Seq<Trade>) -> bool {
    &&& forall|i: int| 0 <= i < working.len() ==> in_list(edges, #[trigger] working[i])
    &&& forall|i: int, j: int| 0 <= i < j < trades.len() ==> !#[trigger] same_triple(trades[i], trades[j])
    &&& forall|i: int, j: int|
        0 <= i < working.len() && 0 <= j < trades.len() ==> !#[trigger] pair_of_trade(working[i], trades[j])
}

/// Drawing capacities down: each pair left stands for a distinct pair of
/// `edges`, with the capacity that the trades on it have not used.
spec fn draw_inv(
    edges: Seq<TradingPair>,
    working: Seq<TradingPair>,
    trades: Seq<Trade>,
    origin: Seq<int>,
    orig: Seq<int>,
) -> bool {
    &&& origin.len() == working.len()
    &&& forall|i: int, j: int| 0 <= i < j < origin.len() ==> #[trigger] origin[i] != #[trigger] origin[j]
    &&& forall|i: int|
        0 <= i < working.len() ==> 0 <= #[trigger] origin[i] < edges.len() && drawn_from(working[i], edges[origin[i]])
            && used_upto(trades, orig, origin[i], trades.len() as int) + working[i].capacity == edges[origin[i]].capacity
    &&& draws_within(edges, trades, orig)
}

/// Routes `starting_asset_quantity` of `starting_asset` toward `final_asset`,
/// greedily, along the best-rate path of what is left of the pair list: each
/// step trades as much as the first lowest-rate pair of the first hop takes, and
/// `policy` says what becomes of that pair. A quantity that cannot reach the
/// final asset any more is left where it is.
///
/// Returns the quantity delivered into `final_asset` (saturated at
/// `u64::MAX`) and the trades in the order they were made: the outcome of a
/// run of `net_step` from the start state until nothing is left to move.
pub fn do_optimize_net_with(
    trading_pairs: &Vec<TradingPair>,
    starting_asset: &String,
    starting_asset_quantity: u64,
    final_asset: &String,
    policy: CapacityPolicy,
) -> (r: (u64, Vec<Trade>))
    requires
        valid_rates(trading_pairs@),
    ensures
        forall|i: int| 0 <= i < r.1.len() ==> trade_valid(trading_pairs@, #[trigger] r.1@[i]),
        policy == CapacityPolicy::RetireAfterUse ==> forall|i: int, j: int|
            0 <= i < j < r.1.len() ==> !#[trigger] same_triple(r.1@[i], r.1@[j]),
        policy == CapacityPolicy::DrawDown ==> capacity_respected(trading_pairs@, r.1@),
        r.0 as int == vstd::math::min(
            held_at_end(starting_asset@, final_asset@, starting_asset_quantity) + delivered(r.1@, final_asset@),
            u64::MAX as int,
        ),
        !reachable(trading_pairs@, starting_asset@, final_asset@) ==> r.0 == 0 && r.1.len() == 0,
        reachable(trading_pairs@, starting_asset@, final_asset@) && starting_asset@ != final_asset@
            && starting_asset_quantity > 0 ==> r.1.len() > 0 && first_trade(
            trading_pairs@,
            starting_asset@,
            final_asset@,
            starting_asset_quantity,
            r.1@[0],
        ),
        greedy_outcome(trading_pairs@, starting_asset@, starting_asset_quantity, final_asset@, policy, r.0, r.1@),
        forall|i: int| 0 <= i < r.1.len() ==> (#[trigger] r.1@[i]).from@ != final_asset@,
        forall|x: Seq<char>|
            #[trigger] out_of(r.1@, x) <= held_at_end(starting_asset@, x, starting_asset_quantity) + into(r.1@, x),
{
    let ghost edges = trading_pairs@;
    let ghost end = final_asset@;
    let ghost init = held_at_end(starting_asset@, final_asset@, starting_asset_quantity);
    let mut working: Vec<TradingPair> = Vec::new();
    let mut i: usize = 0;
    while i < trading_pairs.len()
        invariant
            0 <= i <= trading_pairs.len(),
            edges == trading_pairs@,
            working.len() == i,
            forall|k: int| 0 <= k < working.len() ==> same_pair(#[trigger] working@[k], edges[k]),
        decreases trading_pairs.len() - i,
    {
        let ghost w0 = working@;
        working.push(copy_pair(&trading_pairs[i]));
        proof {
            assert(same_pair(edges[i as int], working@[working.len() - 1]));
            assert forall|k: int| 0 <= k < working.len() implies same_pair(#[trigger] working@[k], edges[k]) by {
                if k < w0.len() {
                    assert(working@[k] == w0[k]);
                }
            }
        }
        i = i + 1;
    }
    let mut pending: Vec<NetOptimData> = Vec::new();
    pending.push(NetOptimData { asset: starting_asset.clone(), amount: starting_asset_quantity });
    let mut trades: Vec<Trade> = Vec::new();
    let mut net: u64 = 0;
    let ghost mut acc: int = 0;
    let ghost start = starting_asset@;
    let ghost qty = starting_asset_quantity;
    let ghost has_path = reachable(edges, start, end);
    let ghost mut first = true;
    let ghost mut origin: Seq<int> = Seq::new(edges.len(), |k: int| k);
    let ghost mut orig: Seq<int> = Seq::empty();
    proof {
        lemma_pending_push(Seq::empty(), pending@[0], end);
        assert(pending@ =~= Seq::<NetOptimData>::empty().push(pending@[0]));
        lemma_cap_sum_nonneg(working@);
        assert forall|k: int| 0 <= k < working@.len() implies within_list(edges, #[trigger] working@[k]) && in_list(edges, working@[k]) by {
            assert(same_pair(working@[k], edges[k]));
        }
        assert forall|k: int| 0 <= k < edges.len() implies used_upto(trades@, orig, k, 0) <= (#[trigger] edges[k]).capacity by {}
    }
    let ghost mut run: Seq<NetState> = seq![(working@, pending@, trades@, 0int)];
    proof {
        assert(copies(working@, edges));
        assert(net_start(edges, start, qty, run[0]));
        lemma_pending_all(Seq::empty(), pending@[0]);
        assert(conserved(start, qty, trades@, pending@)) by {
            assert forall|x: Seq<char>|
                #[trigger] out_of(trades@, x) + pending_at(pending@, x) <= held_at_end(start, x, qty) + into(trades@, x) by {
                assert(pending_at(Seq::empty(), x) == 0);
            }
        }
    }
    while pending.len() > 0
        invariant
            edges == trading_pairs@,
            end == final_asset@,
            valid_rates(edges),
            net_inv(edges, working@, trades@, pending@, acc, init, end),
            policy == CapacityPolicy::RetireAfterUse ==> retire_inv(edges, working@, trades@),
            policy == CapacityPolicy::DrawDown ==> draw_inv(edges, working@, trades@, origin, orig),
            net as int == vstd::math::min(acc, u64::MAX as int),
            start == starting_asset@,
            qty == starting_asset_quantity,
            has_path == reachable(edges, start, end),
            first ==> trades@.len() == 0 && pending@.len() == 1 && pending@[0].asset@ == start && pending@[0].amount
                == qty && copies(working@, edges) && acc == 0,
            !first && has_path && start != end && qty > 0 ==> trades@.len() > 0 && first_trade(
                edges,
                start,
                end,
                qty,
                trades@[0],
            ),
            !first && !has_path ==> pending@.len() == 0 && trades@.len() == 0 && acc == 0,
            net_run(edges, start, qty, end, policy, run),
            run.last() == (working@, pending@, trades@, acc),
            conserved(start, qty, trades@, pending@),
            forall|i: int| 0 <= i < trades@.len() ==> (#[trigger] trades@[i]).from@ != end,
        decreases working.len() + cap_sum(working@), pending.len(),
    {
        let ghost p0 = pending@;
        let ghost was_first = first;
        let ghost s0: NetState = (working@, pending@, trades@, acc);
        let data = pending.pop().unwrap();
        proof {
            assert(p0 =~= pending@.push(data));
            assert(s0.1.last() == data && s0.1.drop_last() == pending@);
            lemma_pending_push(pending@, data, end);
            first = false;
            if was_first && has_path && start != end {
                let p = choose|p: Seq<Seq<char>>| #[trigger] is_trade_path(edges, p, start, end);
                assert(p.len() >= 2) by {
                    if p.len() == 1 {
                        assert(p[0] == p.last());
                    }
                }
                assert(is_edge(edges, p[0], p[1]));
                let j = choose|j: int| 0 <= j < edges.len() && (#[trigger] edges[j]).base_asset@ == p[0] && edges[j].quote_asset@ == p[1];
                assert(same_pair(working@[j], edges[j]));
                assert(is_base(working@, start));
            }
            if was_first && !has_path {
                assert(start != end) by {
                    if start == end {
                        assert(is_trade_path(edges, seq![start], start, end));
                    }
                }
            }
        }
        if data.amount == 0 {
            proof {
                let t: NetState = (working@, pending@, trades@, acc);
                assert(net_step(end, policy, s0, t)) by {
                    reveal(net_step);
                }
                lemma_run_push(edges, start, qty, end, policy, run, t);
                run = run.push(t);
                lemma_conserve_drop(start, qty, trades@, pending@, data);
            }
            continue;
        }
        if data.asset == *final_asset {
            net = if net > u64::MAX - data.amount {
                u64::MAX
            } else {
                net + data.amount
            };
            proof {
                acc = acc + data.amount;
            }
            proof {
                let t: NetState = (working@, pending@, trades@, acc);
                assert(net_step(end, policy, s0, t)) by {
                    reveal(net_step);
                }
                lemma_run_push(edges, start, qty, end, policy, run, t);
                run = run.push(t);
                lemma_conserve_drop(start, qty, trades@, pending@, data);
            }
            continue;
        }
        if !contains_base(&working, &data.asset) {
            proof {
                let t: NetState = (working@, pending@, trades@, acc);
                assert(net_step(end, policy, s0, t)) by {
                    reveal(net_step);
                }
                lemma_run_push(edges, start, qty, end, policy, run, t);
                run = run.push(t);
                lemma_conserve_drop(start, qty, trades@, pending@, data);
            }
            continue;
        }
        proof {
            assert(valid_rates(working@)) by {
                assert forall|k: int| 0 <= k < working@.len() implies (#[trigger] working@[k]).rate.valid() by {
                    assert(within_list(edges, working@[k]));
                    let j = choose|j: int| 0 <= j < edges.len() && drawn_from(working@[k], #[trigger] edges[j]);
                    assert(edges[j].rate.valid());
                }
            }
        }
        match do_optimize_rate(&working, &data.asset, final_asset) {
            Err(_) => {
                proof {
                    if was_first && has_path {
                        let p = choose|p: Seq<Seq<char>>| #[trigger] is_trade_path(edges, p, start, end);
                        lemma_copies_trade_path(working@, edges, p, start, end);
                    }
                }
                proof {
                    let t: NetState = (working@, pending@, trades@, acc);
                    assert(net_step(end, policy, s0, t)) by {
                        reveal(net_step);
                    }
                    lemma_run_push(edges, start, qty, end, policy, run, t);
                    run = run.push(t);
                    lemma_conserve_drop(start, qty, trades@, pending@, data);
                }
                continue;
            },
            Ok((v, path)) => {
                proof {
                    if was_first {
                        lemma_copies_best_path(working@, edges, start, end, v, names(path@));
                        assert(reachable(edges, start, end));
                    }
                    assert(is_trade_path(working@, names(path@), data.asset@, end));
                    assert(names(path@).len() >= 2);
                    assert(is_edge(working@, names(path@)[0], names(path@)[1]));
                }
                let idx = best_pair_index(&working, &path[0], &path[1]).unwrap();
                let cap = working[idx].capacity;
                let rate = working[idx].rate;
                let moved = if cap < data.amount {
                    cap
                } else {
                    data.amount
                };
                proof {
                    assert(within_list(edges, working@[idx as int]));
                    let k = choose|k: int| 0 <= k < edges.len() && drawn_from(working@[idx as int], #[trigger] edges[k]);
                    assert(edges[k].rate.valid());
                }
                let out = convert_amount(moved, rate);
                let trade = Trade {
                    exchange: working[idx].exchange.clone(),
                    to: working[idx].quote_asset.clone(),
                    to_amount: out,
                    from: working[idx].base_asset.clone(),
                    from_amount: moved,
                };
                let ghost w0 = working@;
                let ghost t0 = trades@;
                let ghost pm = pending@;
                let ghost o0 = orig;
                let ghost origin0 = origin;
                proof {
                    let j = idx as int;
                    assert(pair_of_trade(w0[j], trade));
                    let k = choose|k: int| 0 <= k < edges.len() && drawn_from(w0[j], #[trigger] edges[k]);
                    assert(trade_on(trade, edges[k]));
                    assert(trade_valid(edges, trade));
                    if was_first {
                        assert(same_pair(w0[j], edges[j]));
                        assert(trade_on(trade, edges[j]));
                        lemma_copies_first_lowest(w0, edges, start, trade.to@, j);
                        assert(is_best_path(edges, start, end, v, names(path@)) && names(path@)[1] == trade.to@);
                        assert(first_trade(edges, start, end, qty, trade));
                    }
                }
                match policy {
                    CapacityPolicy::RetireAfterUse => {
                        proof {
                            assert(pair_of_trade(w0[idx as int], trade));
                        }
                        working = remove_triple(&working, &trade);
                    },
                    CapacityPolicy::DrawDown => {
                        if moved == cap {
                            working.remove(idx);
                            proof {
                                origin = origin.remove(idx as int);
                            }
                        } else {
                            let reduced = TradingPair {
                                exchange: working[idx].exchange.clone(),
                                quote_asset: working[idx].quote_asset.clone(),
                                base_asset: working[idx].base_asset.clone(),
                                rate,
                                capacity: cap - moved,
                            };
                            working.set(idx, reduced);
                        }
                        proof {
                            orig = orig.push(origin0[idx as int]);
                        }
                    },
                }
                pending.push(NetOptimData { asset: trade.to.clone(), amount: out });
                let ghost x1 = pending@.last();
                proof {
                    lemma_pending_push(pm, pending@.last(), end);
                    assert(pending@ == pm.push(x1));
                }
                if moved < data.amount {
                    let ghost pm2 = pending@;
                    pending.push(NetOptimData { asset: data.asset.clone(), amount: data.amount - moved });
                    proof {
                        lemma_pending_push(pm2, pending@.last(), end);
                        assert(pending@ == pm.push(x1).push(pending@.last()));
                    }
                }
                trades.push(trade);
                proof {
                    lemma_delivered_push(t0, trade, end);
                    assert(trades@ == t0.push(trade));
                    if !was_first && has_path && start != end && qty > 0 {
                        assert(trades@[0] == t0[0]);
                    }
                    assert forall|i2: int| 0 <= i2 < trades@.len() implies trade_valid(edges, #[trigger] trades@[i2]) by {
                        if i2 < t0.len() {
                            assert(trades@[i2] == t0[i2]);
                        }
                    }
                    lemma_cap_sum_nonneg(working@);
                    lemma_conserve_trade(start, qty, t0, pm, data, trade, x1, pending@);
                    assert forall|i2: int| 0 <= i2 < trades@.len() implies (#[trigger] trades@[i2]).from@ != end by {
                        if i2 < t0.len() {
                            assert(trades@[i2] == t0[i2]);
                        }
                    }
                    let t: NetState = (working@, pending@, trades@, acc);
                    assert(trade_step(policy, s0, idx as int, t)) by {
                        assert(t.2.drop_last() =~= t0);
                        assert(t.1.subrange(0, pm.len() as int) =~= pm);
                    }
                    assert(is_best_path(s0.0, data.asset@, end, v, names(path@)));
                    assert(first_lowest(s0.0, names(path@)[0], names(path@)[1], idx as int));
                    assert(is_base(s0.0, data.asset@));
                    assert(reachable(s0.0, data.asset@, end));
                    assert(net_step(end, policy, s0, t)) by {
                        reveal(net_step);
                    }
                    lemma_run_push(edges, start, qty, end, policy, run, t);
                    run = run.push(t);
                    if policy == CapacityPolicy::RetireAfterUse {
                        lemma_retire_step(edges, w0, working@, t0, trade, idx as int);
                    } else {
                        lemma_draw_step(edges, w0, working@, t0, trade, origin0, origin, o0, idx as int, cap, moved);
                    }
                }
            },
        }
    }
    proof {
        if policy == CapacityPolicy::DrawDown {
            assert(draws_within(edges, trades@, orig));
            assert(capacity_respected(edges, trades@));
        }
        assert(greedy_outcome(edges, start, qty, end, policy, net, trades@));
        assert forall|x: Seq<char>| #[trigger] out_of(trades@, x) <= held_at_end(start, x, qty) + into(trades@, x) by {
            assert(out_of(trades@, x) + pending_at(pending@, x) <= held_at_end(start, x, qty) + into(trades@, x));
        }
    }
    (net, trades)
}

proof fn lemma_retire_step(
    edges: Seq<TradingPair>,
    w0: Seq<TradingPair>,
    w1: Seq<TradingPair>,
    t0: Seq<Trade>,
    trade: Trade,
    idx: int,
)
    requires
        retire_inv(edges, w0, t0),
        0 <= idx < w0.len(),
        pair_of_trade(w0[idx], trade),
        forall|i: int| 0 <= i < w1.len() ==> in_list(w0, #[trigger] w1[i]) && !pair_of_trade(w1[i], trade),
        w1.len() < w0.len(),
        cap_sum(w1) <= cap_sum(w0),
    ensures
        retire_inv(edges, w1, t0.push(trade)),
        forall|i: int| 0 <= i < w1.len() ==> within_list(edges, #[trigger] w1[i]),
        w1.len() + cap_sum(w1) < w0.len() + cap_sum(w0),
{
    let t1 = t0.push(trade);
    assert forall|i2: int| 0 <= i2 < t0.len() implies !#[trigger] same_triple(t0[i2], trade) by {
        assert(!pair_of_trade(w0[idx], t0[i2]));
    }
    assert forall|i2: int, j2: int| 0 <= i2 < j2 < t1.len() implies !#[trigger] same_triple(t1[i2], t1[j2]) by {
        if j2 < t0.len() {
            assert(t1[i2] == t0[i2] && t1[j2] == t0[j2]);
        } else {
            assert(t1[i2] == t0[i2]);
        }
    }
    assert forall|i2: int| 0 <= i2 < w1.len() implies in_list(edges, #[trigger] w1[i2]) && within_list(edges, w1[i2]) by {
        assert(in_list(w0, w1[i2]));
        let j = choose|j: int| 0 <= j < w0.len() && same_pair(#[trigger] w0[j], w1[i2]);
        assert(in_list(edges, w0[j]));
        let k = choose|k: int| 0 <= k < edges.len() && same_pair(#[trigger] edges[k], w0[j]);
        assert(same_pair(edges[k], w1[i2]));
        assert(drawn_from(w1[i2], edges[k]));
    }
    assert forall|i2: int, j2: int|
        0 <= i2 < w1.len() && 0 <= j2 < t1.len() implies !#[trigger] pair_of_trade(w1[i2], t1[j2]) by {
        assert(in_list(w0, w1[i2]));
        let j = choose|j: int| 0 <= j < w0.len() && same_pair(#[trigger] w0[j], w1[i2]);
        if j2 < t0.len() {
            assert(t1[j2] == t0[j2]);
            assert(!pair_of_trade(w0[j], t0[j2]));
        }
    }
}

proof fn lemma_draw_step(
    edges: Seq<TradingPair>,
    w0: Seq<TradingPair>,
    w1: Seq<TradingPair>,
    t0: Seq<Trade>,
    trade: Trade,
    origin0: Seq<int>,
    origin1: Seq<int>,
    o0: Seq<int>,
    idx: int,
    cap: u64,
    moved: u64,
)
    requires
        draw_inv(edges, w0, t0, origin0, o0),
        0 <= idx < w0.len(),
        cap == w0[idx].capacity,
        moved <= cap,
        moved > 0 || moved == cap,
        trade.from_amount == moved,
        trade_on(trade, edges[origin0[idx]]),
        moved == cap ==> w1 == w0.remove(idx) && origin1 == origin0.remove(idx),
        moved < cap ==> origin1 == origin0 && w1 == w0.update(idx, w1[idx]) && w1.len() == w0.len() && drawn_from(
            w1[idx],
            edges[origin0[idx]],
        ) && w1[idx].capacity == cap - moved,
    ensures
        draw_inv(edges, w1, t0.push(trade), origin1, o0.push(origin0[idx])),
        forall|i: int| 0 <= i < w1.len() ==> within_list(edges, #[trigger] w1[i]),
        w1.len() + cap_sum(w1) < w0.len() + cap_sum(w0),
{
    let t1 = t0.push(trade);
    let o1 = o0.push(origin0[idx]);
    let k0 = origin0[idx];
    let n0 = t0.len() as int;
    assert forall|k: int| #[trigger] used_upto(t1, o1, k, n0 + 1) == used_upto(t0, o0, k, n0) + if k == k0 {
        moved as int
    } else {
        0
    } by {
        lemma_used_prefix(t0, o0, t1, o1, k, n0);
    }
    // capacity totals
    lemma_cap_sum_split(w0, idx);
    if moved == cap {
        let a = w0.subrange(0, idx);
        let b = w0.subrange(idx + 1, w0.len() as int);
        assert(w1 =~= a + b);
        lemma_cap_sum_concat(a, b);
        lemma_cap_sum_nonneg(w1);
    } else {
        lemma_cap_sum_split(w1, idx);
        assert(w1.subrange(0, idx) =~= w0.subrange(0, idx));
        assert(w1.subrange(idx + 1, w1.len() as int) =~= w0.subrange(idx + 1, w0.len() as int));
    }
    // the pairs left
    assert forall|i: int|
        0 <= i < w1.len() implies 0 <= #[trigger] origin1[i] < edges.len() && drawn_from(w1[i], edges[origin1[i]])
            && used_upto(t1, o1, origin1[i], t1.len() as int) + w1[i].capacity == edges[origin1[i]].capacity by {
        let j = if moved == cap && i >= idx { i + 1 } else { i };
        assert(origin1[i] == origin0[j]);
        if j != idx {
            assert(w1[i] == w0[j]);
            assert(origin0[j] != k0) by {
                if j < idx {
                    assert(origin0[j] != origin0[idx]);
                } else {
                    assert(origin0[idx] != origin0[j]);
                }
            }
        }
        assert(used_upto(t1, o1, origin1[i], n0 + 1) == used_upto(t0, o0, origin1[i], n0) + if origin1[i] == k0 {
            moved as int
        } else {
            0
        });
    }
    assert forall|i: int, j: int| 0 <= i < j < origin1.len() implies #[trigger] origin1[i] != #[trigger] origin1[j] by {
        let i0 = if moved == cap && i >= idx { i + 1 } else { i };
        let j0 = if moved == cap && j >= idx { j + 1 } else { j };
        assert(origin1[i] == origin0[i0] && origin1[j] == origin0[j0]);
        assert(origin0[i0] != origin0[j0]);
    }
    assert forall|i: int|
        0 <= i < t1.len() implies 0 <= #[trigger] o1[i] < edges.len() && trade_on(t1[i], edges[o1[i]]) by {
        if i < t0.len() {
            assert(t1[i] == t0[i] && o1[i] == o0[i]);
        }
    }
    assert forall|k: int| 0 <= k < edges.len() implies used_upto(t1, o1, k, t1.len() as int) <= (#[trigger] edges[k]).capacity by {
        assert(used_upto(t1, o1, k, n0 + 1) == used_upto(t0, o0, k, n0) + if k == k0 {
            moved as int
        } else {
            0
        });
        if k == k0 {
            assert(used_upto(t0, o0, origin0[idx], n0) + w0[idx].capacity == edges[origin0[idx]].capacity);
        }
    }
    assert forall|i: int| 0 <= i < w1.len() implies within_list(edges, #[trigger] w1[i]) by {
        assert(drawn_from(w1[i], edges[origin1[i]]));
    }
}

/// [`do_optimize_net_with`] under [`CapacityPolicy::RetireAfterUse`]: each
/// (exchange, base, quote) triple is traded at most once.
pub fn do_optimize_net(
    trading_pairs: &Vec<TradingPair>,
    starting_asset: &String,
    starting_asset_quantity: u64,
    final_asset: &String,
) -> (r: (u64, Vec<Trade>))
    requires
        valid_rates(trading_pairs@),
    ensures
        forall|i: int| 0 <= i < r.1.len() ==> trade_valid(trading_pairs@, #[trigger] r.1@[i]),
        forall|i: int, j: int| 0 <= i < j < r.1.len() ==> !#[trigger] same_triple(r.1@[i], r.1@[j]),
        r.0 as int == vstd::math::min(
            held_at_end(starting_asset@, final_asset@, starting_asset_quantity) + delivered(r.1@, final_asset@),
            u64::MAX as int,
        ),
        !reachable(trading_pairs@, starting_asset@, final_asset@) ==> r.0 == 0 && r.1.len() == 0,
        reachable(trading_pairs@, starting_asset@, final_asset@) && starting_asset@ != final_asset@
            && starting_asset_quantity > 0 ==> r.1.len() > 0 && first_trade(
            trading_pairs@,
            starting_asset@,
            final_asset@,
            starting_asset_quantity,
            r.1@[0],
        ),
        greedy_outcome(trading_pairs@, starting_asset@, starting_asset_quantity, final_asset@, CapacityPolicy::RetireAfterUse, r.0, r.1@),
        forall|i: int| 0 <= i < r.1.len() ==> (#[trigger] r.1@[i]).from@ != final_asset@,
        forall|x: Seq<char>|
            #[trigger] out_of(r.1@, x) <= held_at_end(starting_asset@, x, starting_asset_quantity) + into(r.1@, x),
{
    do_optimize_net_with(
        trading_pairs,
        starting_asset,
        starting_asset_quantity,
        final_asset,
        CapacityPolicy::RetireAfterUse,
    )
}

} // verus!
