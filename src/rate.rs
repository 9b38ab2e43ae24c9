//! The best-rate simple path between two assets, trade sizes ignored.
use vstd::prelude::*;
use crate::pair::{TradingPair, Rate, UNIT, convert, best_rate, hop_rate, is_edge, valid_rates};
use crate::connections::{Connections, get_connections, get_rate_map, index_of};
use crate::search::{search, valid_ipath, ival, name_path};
use crate::graph::is_asset;
use crate::seqs::names;

verus! {

/// `p` runs from `start` to `end` through distinct assets, each hop along a pair.
pub open spec fn is_trade_path(edges: Seq<TradingPair>, p: Seq<Seq<char>>, start: Seq<char>, end: Seq<char>) -> bool {
    &&& p.len() >= 1
    &&& p[0] == start
    &&& p.last() == end
    &&& p.no_duplicates()
    &&& forall|i: int| 0 <= i < p.len() - 1 ==> is_edge(edges, #[trigger] p[i], p[i + 1])
}

/// What `UNIT` of the first asset of `p` becomes when traded hop by hop along
/// `p`, each hop at the lowest rate among the pairs for it.
pub open spec fn path_value(edges: Seq<TradingPair>, p: Seq<Seq<char>>) -> u64
    decreases p.len(),
{
    if p.len() <= 1 {
        UNIT
    } else {
        convert(path_value(edges, p.drop_last()), hop_rate(edges, p[p.len() - 2], p.last()))
    }
}

/// `p` is a trade path from `start` to `end` worth `v`, no trade path
/// between them is worth more, and none worth as much is shorter.
pub open spec fn is_best_path(edges: Seq<TradingPair>, start: Seq<char>, end: Seq<char>, v: u64, p: Seq<Seq<char>>) -> bool {
    &&& is_trade_path(edges, p, start, end)
    &&& v == path_value(edges, p)
    &&& forall|q: Seq<Seq<char>>| #[trigger] is_trade_path(edges, q, start, end) ==> path_value(edges, q) <= v
    &&& forall|q: Seq<Seq<char>>|
        #[trigger] is_trade_path(edges, q, start, end) && path_value(edges, q) == v ==> p.len() <= q.len()
}

/// The search could not look up a result: no path reaches the asset.
#[derive(Debug, Clone)]
pub enum OptimError {
    LookupFailure(String),
}

fn names_of(conn: &Connections, p: &Vec<usize>) -> (r: Vec<String>)
    requires
        forall|i: int| 0 <= i < p.len() ==> #[trigger] p@[i] < conn.names.len(),
    ensures
        names(r@) == name_path(*conn, p@),
{
    let mut r: Vec<String> = Vec::new();
    let mut i: usize = 0;
    while i < p.len()
        invariant
            0 <= i <= p.len(),
            forall|j: int| 0 <= j < p.len() ==> #[trigger] p@[j] < conn.names.len(),
            names(r@) =~= name_path(*conn, p@.subrange(0, i as int)),
        decreases p.len() - i,
    {
        let ghost r0 = r@;
        r.push(conn.names[p[i]].clone());
        assert(names(r@) =~= names(r0).push(conn.name(p@[i as int] as int)));
        assert(p@.subrange(0, i + 1) =~= p@.subrange(0, i as int).push(p@[i as int]));
        i = i + 1;
    }
    assert(p@.subrange(0, i as int) =~= p@);
    r
}

proof fn lemma_name_unique(edges: Seq<TradingPair>, c: Connections, i: int, j: int)
    requires
        c.wf_for(edges),
        0 <= i < c.names.len(),
        0 <= j < c.names.len(),
        c.name(i) == c.name(j),
    ensures
        i == j,
{
    assert(names(c.names@)[i] == names(c.names@)[j]);
}

proof fn lemma_ipath_to_trade(edges: Seq<TradingPair>, c: Connections, s: usize, q: Seq<usize>)
    requires
        c.wf_for(edges),
        valid_ipath(c, s, q),
    ensures
        is_trade_path(edges, name_path(c, q), c.name(s as int), c.name(q.last() as int)),
{
    let p = name_path(c, q);
    assert forall|i: int, j: int| 0 <= i < p.len() && 0 <= j < p.len() && i != j implies p[i] != p[j] by {
        if p[i] == p[j] {
            lemma_name_unique(edges, c, q[i] as int, q[j] as int);
        }
    }
    assert forall|i: int| 0 <= i < p.len() - 1 implies is_edge(edges, #[trigger] p[i], p[i + 1]) by {
        assert(c.step(q[i], q[i + 1]));
        assert(q[i] < c.names.len() && q[i + 1] < c.names.len());
    }
}

/// The number of a named asset.
spec fn idx(c: Connections, x: Seq<char>) -> usize {
    choose|j: usize| j < c.names.len() && c.name(j as int) == x
}

proof fn lemma_trade_to_ipath(
    edges: Seq<TradingPair>,
    c: Connections,
    s: usize,
    e: usize,
    p: Seq<Seq<char>>,
) -> (q: Seq<usize>)
    requires
        c.wf_for(edges),
        s < c.names.len(),
        e < c.names.len(),
        is_trade_path(edges, p, c.name(s as int), c.name(e as int)),
    ensures
        valid_ipath(c, s, q),
        q.last() == e,
        name_path(c, q) == p,
{
    assert forall|i: int| 0 <= i < p.len() implies names(c.names@).contains(#[trigger] p[i]) by {
        if i == 0 {
            assert(names(c.names@)[s as int] == p[i]);
        } else {
            assert(is_edge(edges, p[i - 1], p[i]));
            let t = choose|t: int|
                0 <= t < edges.len() && (#[trigger] edges[t]).base_asset@ == p[i - 1] && edges[t].quote_asset@ == p[i];
            assert(crate::pair::mentions(edges[t], p[i]));
            assert(is_asset(edges, p[i]));
        }
    }
    assert forall|i: int| 0 <= i < p.len() implies (#[trigger] idx(c, p[i])) < c.names.len() && c.name(idx(c, p[i]) as int) == p[i] by {
        let t = choose|t: int| 0 <= t < names(c.names@).len() && names(c.names@)[t] == p[i];
        assert(c.name(t as usize as int) == p[i]);
    }
    let q = p.map_values(|x: Seq<char>| idx(c, x));
    assert(name_path(c, q) =~= p);
    lemma_name_unique(edges, c, q[0] as int, s as int);
    lemma_name_unique(edges, c, q[q.len() - 1] as int, e as int);
    assert forall|i: int, j: int| 0 <= i < q.len() && 0 <= j < q.len() && i != j implies q[i] != q[j] by {
        assert(p[i] != p[j]);
    }
    assert forall|i: int| 0 <= i < q.len() implies #[trigger] q[i] < c.names.len() by {
        assert(idx(c, p[i]) < c.names.len());
    }
    assert forall|i: int| 0 <= i < q.len() - 1 implies c.step(#[trigger] q[i], q[i + 1]) by {
        assert(is_edge(edges, p[i], p[i + 1]));
        assert(idx(c, p[i]) < c.names.len());
        assert(idx(c, p[i + 1]) < c.names.len());
    }
    q
}

/// The best conversion from `starting_asset` to `final_asset`, trade sizes
/// ignored: the value of `UNIT` of the start asset at the end of the best
/// simple path, and that path.
///
/// The search is exhaustive over simple paths (exponential in the number of
/// assets in the worst case), pruned by dominance and memoized per asset.
pub fn do_optimize_rate(trading_pairs: &Vec<TradingPair>, starting_asset: &String, final_asset: &String) -> (r: Result<(u64, Vec<String>), OptimError>)
    requires
        valid_rates(trading_pairs@),
    ensures
        match r {
            Ok((v, path)) => is_best_path(trading_pairs@, starting_asset@, final_asset@, v, names(path@)),
            Err(OptimError::LookupFailure(x)) => {
                &&& x@ == final_asset@
                &&& forall|p: Seq<Seq<char>>| !#[trigger] is_trade_path(trading_pairs@, p, starting_asset@, final_asset@)
            },
        },
{
    let ghost edges = trading_pairs@;
    let conn = get_connections(trading_pairs);
    let rate_map = get_rate_map(trading_pairs, &conn);
    let si = index_of(&conn.names, starting_asset);
    let ei = index_of(&conn.names, final_asset);
    if si.is_some() && ei.is_some() {
        let s = si.unwrap();
        let e = ei.unwrap();
        match search(trading_pairs, &conn, &rate_map, s, e) {
            Some(d) => {
                let path = names_of(&conn, &d.path);
                proof {
                    lemma_ipath_to_trade(edges, conn, s, d.path@);
                    assert forall|p: Seq<Seq<char>>|
                        #[trigger] is_trade_path(edges, p, starting_asset@, final_asset@) implies path_value(edges, p)
                            <= d.cumulative_rate && (path_value(edges, p) == d.cumulative_rate ==> names(path@).len()
                            <= p.len()) by {
                        let q = lemma_trade_to_ipath(edges, conn, s, e, p);
                        assert(valid_ipath(conn, s, q));
                        assert(name_path(conn, q).len() == q.len());
                    }
                }
                Ok((d.cumulative_rate, path))
            },
            None => {
                proof {
                    assert forall|p: Seq<Seq<char>>| !#[trigger] is_trade_path(edges, p, starting_asset@, final_asset@) by {
                        if is_trade_path(edges, p, starting_asset@, final_asset@) {
                            let q = lemma_trade_to_ipath(edges, conn, s, e, p);
                            assert(valid_ipath(conn, s, q));
                        }
                    }
                }
                Err(OptimError::LookupFailure(final_asset.clone()))
            },
        }
    } else {
        proof {
            assert forall|p: Seq<Seq<char>>|
                #[trigger] is_trade_path(edges, p, starting_asset@, final_asset@) implies p.len() == 1 by {
                if p.len() > 1 {
                    assert(is_edge(edges, p[0], p[1]));
                    let t = choose|t: int|
                        0 <= t < edges.len() && (#[trigger] edges[t]).base_asset@ == p[0] && edges[t].quote_asset@ == p[1];
                    assert(crate::pair::mentions(edges[t], p[0]));
                    let k = p.len() - 2;
                    assert(is_edge(edges, p[k], p[k + 1]));
                    let u = choose|u: int|
                        0 <= u < edges.len() && (#[trigger] edges[u]).base_asset@ == p[k] && edges[u].quote_asset@ == p[k + 1];
                    assert(crate::pair::mentions(edges[u], p[k + 1]));
                    assert(is_asset(edges, p[0]));
                    assert(is_asset(edges, p[k + 1]));
                    assert(names(conn.names@).contains(starting_asset@));
                    assert(names(conn.names@).contains(final_asset@));
                }
            }
        }
        if *starting_asset == *final_asset {
            let mut path: Vec<String> = Vec::new();
            path.push(starting_asset.clone());
            proof {
                assert(names(path@) =~= seq![starting_asset@]);
            }
            Ok((UNIT, path))
        } else {
            Err(OptimError::LookupFailure(final_asset.clone()))
        }
    }
}

/// When a detour is worth strictly more than the direct path, the best path
/// is not the direct one and is worth at least as much as the detour.
pub proof fn lemma_best_prefers_detour(
    edges: Seq<TradingPair>,
    start: Seq<char>,
    end: Seq<char>,
    v: u64,
    best: Seq<Seq<char>>,
    direct: Seq<Seq<char>>,
    detour: Seq<Seq<char>>,
)
    requires
        is_best_path(edges, start, end, v, best),
        is_trade_path(edges, direct, start, end),
        is_trade_path(edges, detour, start, end),
        path_value(edges, detour) > path_value(edges, direct),
    ensures
        best != direct,
        v >= path_value(edges, detour),
{
}

/// Whether the pair trades `x` into `y`.
pub open spec fn links(e: TradingPair, x: Seq<char>, y: Seq<char>) -> bool {
    e.base_asset@ == x && e.quote_asset@ == y
}

/// The pair list of a chain `a - b - c - d` over four distinct assets: some
/// pair trades `a` into `b`, some `b` into `c`, some `c` into `d`, and every
/// pair is one of these links or its reverse, in any order and number.
pub open spec fn is_chain(edges: Seq<TradingPair>, a: Seq<char>, b: Seq<char>, c: Seq<char>, d: Seq<char>) -> bool {
    &&& a != b && a != c && a != d && b != c && b != d && c != d
    &&& is_edge(edges, a, b)
    &&& is_edge(edges, b, c)
    &&& is_edge(edges, c, d)
    &&& forall|i: int|
        0 <= i < edges.len() ==> links(#[trigger] edges[i], a, b) || links(edges[i], b, a) || links(edges[i], b, c)
            || links(edges[i], c, b) || links(edges[i], c, d) || links(edges[i], d, c)
}

/// When a single pair trades `x` into `y`, the hop from `x` to `y` is valued
/// at its rate.
pub proof fn lemma_single_pair_rate(edges: Seq<TradingPair>, k: int)
    requires
        0 <= k < edges.len(),
        forall|j: int|
            0 <= j < edges.len() && j != k ==> !links(#[trigger] edges[j], edges[k].base_asset@, edges[k].quote_asset@),
    ensures
        hop_rate(edges, edges[k].base_asset@, edges[k].quote_asset@) == edges[k].rate,
{
    lemma_best_rate_single(edges, edges.len() as int, edges[k].base_asset@, edges[k].quote_asset@, k);
}

proof fn lemma_best_rate_single(edges: Seq<TradingPair>, n: int, x: Seq<char>, y: Seq<char>, k: int)
    requires
        0 <= k < n <= edges.len(),
        edges[k].base_asset@ == x && edges[k].quote_asset@ == y,
        forall|j: int| 0 <= j < n && j != k ==> !((#[trigger] edges[j]).base_asset@ == x && edges[j].quote_asset@ == y),
    ensures
        best_rate(edges, n, x, y) == Some(edges[k].rate),
    decreases n,
{
    if n - 1 > k {
        lemma_best_rate_single(edges, n - 1, x, y, k);
    } else {
        assert(best_rate(edges, n - 1, x, y) == None::<Rate>) by {
            lemma_best_rate_none(edges, n - 1, x, y);
        }
    }
}

proof fn lemma_best_rate_none(edges: Seq<TradingPair>, n: int, x: Seq<char>, y: Seq<char>)
    requires
        0 <= n <= edges.len(),
        forall|j: int| 0 <= j < n ==> !((#[trigger] edges[j]).base_asset@ == x && edges[j].quote_asset@ == y),
    ensures
        best_rate(edges, n, x, y) == None::<Rate>,
    decreases n,
{
    if n > 0 {
        lemma_best_rate_none(edges, n - 1, x, y);
    }
}

proof fn lemma_chain_edges(edges: Seq<TradingPair>, a: Seq<char>, b: Seq<char>, c: Seq<char>, d: Seq<char>, x: Seq<char>, y: Seq<char>)
    requires
        is_chain(edges, a, b, c, d),
        is_edge(edges, x, y),
    ensures
        (x == a && y == b) || (x == b && y == a) || (x == b && y == c) || (x == c && y == b) || (x == c && y == d)
            || (x == d && y == c),
{
    let j = choose|j: int| 0 <= j < edges.len() && (#[trigger] edges[j]).base_asset@ == x && edges[j].quote_asset@ == y;
    assert(links(edges[j], a, b) || links(edges[j], b, a) || links(edges[j], b, c) || links(edges[j], c, b) || links(
        edges[j],
        c,
        d,
    ) || links(edges[j], d, c));
}

/// In a chain `a - b - c - d` the one trade path from `a` to `d` is
/// `a, b, c, d`.
pub proof fn lemma_chain_only_path(edges: Seq<TradingPair>, a: Seq<char>, b: Seq<char>, c: Seq<char>, d: Seq<char>, p: Seq<Seq<char>>)
    requires
        is_chain(edges, a, b, c, d),
    ensures
        is_trade_path(edges, seq![a, b, c, d], a, d),
        is_trade_path(edges, p, a, d) ==> p == seq![a, b, c, d],
{
    let q = seq![a, b, c, d];
    assert forall|i: int| 0 <= i < q.len() - 1 implies is_edge(edges, #[trigger] q[i], q[i + 1]) by {}
    if is_trade_path(edges, p, a, d) {
        assert(p.len() >= 2) by {
            if p.len() == 1 {
                assert(p[0] == p.last());
            }
        }
        assert(is_edge(edges, p[0], p[1]));
        lemma_chain_edges(edges, a, b, c, d, p[0], p[1]);
        assert(p[1] == b);
        assert(p.len() >= 3) by {
            if p.len() == 2 {
                assert(p[1] == p.last());
            }
        }
        assert(is_edge(edges, p[1], p[2]));
        lemma_chain_edges(edges, a, b, c, d, p[1], p[2]);
        assert(p[2] != p[0]);
        assert(p[2] == c);
        assert(p.len() >= 4) by {
            if p.len() == 3 {
                assert(p[2] == p.last());
            }
        }
        assert(is_edge(edges, p[2], p[3]));
        lemma_chain_edges(edges, a, b, c, d, p[2], p[3]);
        assert(p[3] != p[1]);
        assert(p[3] == d);
        assert(p.len() == 4) by {
            if p.len() > 4 {
                assert(p[p.len() - 1] == p[3]);
            }
        }
        assert(p =~= q);
    }
}

/// In a chain `a - b - c - d` the best path from `a` to `d` is `a, b, c, d`,
/// worth `UNIT` traded at the rate of the hop from `a` to `b`, then of `b` to
/// `c`, then of `c` to `d` (each the pair's own rate when it is the only pair
/// of its hop, see `lemma_single_pair_rate`). Such a path exists, so the rate
/// optimizer does not fail on a chain.
pub proof fn lemma_chain_best_path(
    edges: Seq<TradingPair>,
    a: Seq<char>,
    b: Seq<char>,
    c: Seq<char>,
    d: Seq<char>,
    v: u64,
    best: Seq<Seq<char>>,
)
    requires
        is_chain(edges, a, b, c, d),
        is_best_path(edges, a, d, v, best),
    ensures
        best == seq![a, b, c, d],
        v == convert(convert(convert(UNIT, hop_rate(edges, a, b)), hop_rate(edges, b, c)), hop_rate(edges, c, d)),
{
    lemma_chain_only_path(edges, a, b, c, d, best);
    let p = best;
    let abc = seq![a, b, c];
    let ab = seq![a, b];
    assert(p.drop_last() =~= abc);
    assert(abc.drop_last() =~= ab);
    assert(ab.drop_last() =~= seq![a]);
    assert(path_value(edges, seq![a]) == UNIT);
    assert(path_value(edges, ab) == convert(UNIT, hop_rate(edges, a, b)));
    assert(path_value(edges, abc) == convert(path_value(edges, ab), hop_rate(edges, b, c)));
}

} // verus!
