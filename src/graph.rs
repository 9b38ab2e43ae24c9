//! Connected components of a pair list taken as undirected.
use vstd::prelude::*;
use crate::pair::{TradingPair, is_edge, mentions};
use crate::seqs::{names, contains_name, lemma_distinct_within};

verus! {

/// `x` and `y` are joined by a pair in either direction.
pub open spec fn linked(edges: Seq<TradingPair>, x: Seq<char>, y: Seq<char>) -> bool {
    is_edge(edges, x, y) || is_edge(edges, y, x)
}

/// A walk through the pair list taken as undirected.
pub open spec fn is_walk(edges: Seq<TradingPair>, w: Seq<Seq<char>>) -> bool {
    &&& w.len() >= 1
    &&& forall|i: int| 0 <= i < w.len() - 1 ==> linked(edges, #[trigger] w[i], w[i + 1])
}

/// `x` and `y` lie in one connected component of the undirected graph.
pub open spec fn connected(edges: Seq<TradingPair>, x: Seq<char>, y: Seq<char>) -> bool {
    exists|w: Seq<Seq<char>>| #[trigger] is_walk(edges, w) && w[0] == x && w.last() == y
}

/// Every asset named by the list, the base and the quote of each pair in turn.
pub open spec fn asset_list(edges: Seq<TradingPair>) -> Seq<Seq<char>> {
    Seq::new(
        2 * edges.len(),
        |i: int|
            if i % 2 == 0 {
                edges[i / 2].base_asset@
            } else {
                edges[i / 2].quote_asset@
            },
    )
}

/// Whether `x` is the base or the quote of some pair.
pub open spec fn is_asset(edges: Seq<TradingPair>, x: Seq<char>) -> bool {
    exists|i: int| 0 <= i < edges.len() && #[trigger] mentions(edges[i], x)
}

/// Every neighbour of a member of `s` is a member of `s`.
pub open spec fn closed(edges: Seq<TradingPair>, s: Seq<Seq<char>>) -> bool {
    forall|i: int, y: Seq<char>|
        0 <= i < s.len() && #[trigger] linked(edges, s[i], y) ==> s.contains(y)
}

pub proof fn lemma_connected_refl(edges: Seq<TradingPair>, x: Seq<char>)
    ensures
        connected(edges, x, x),
{
    let w = seq![x];
    assert(is_walk(edges, w));
}

pub proof fn lemma_connected_step(edges: Seq<TradingPair>, x: Seq<char>, y: Seq<char>, z: Seq<char>)
    requires
        connected(edges, x, y),
        linked(edges, y, z),
    ensures
        connected(edges, x, z),
{
    let w = choose|w: Seq<Seq<char>>| #[trigger] is_walk(edges, w) && w[0] == x && w.last() == y;
    let w2 = w.push(z);
    assert forall|i: int| 0 <= i < w2.len() - 1 implies linked(edges, #[trigger] w2[i], w2[i + 1]) by {
        if i < w.len() - 1 {
            assert(linked(edges, w[i], w[i + 1]));
        }
    }
    assert(is_walk(edges, w2));
}

pub proof fn lemma_connected_sym(edges: Seq<TradingPair>, x: Seq<char>, y: Seq<char>)
    requires
        connected(edges, x, y),
    ensures
        connected(edges, y, x),
{
    let w = choose|w: Seq<Seq<char>>| #[trigger] is_walk(edges, w) && w[0] == x && w.last() == y;
    let n = w.len();
    let r = Seq::new(n, |i: int| w[n - 1 - i]);
    assert forall|i: int| 0 <= i < r.len() - 1 implies linked(edges, #[trigger] r[i], r[i + 1]) by {
        let j = n - 2 - i;
        assert(linked(edges, w[j], w[j + 1]));
    }
    assert(is_walk(edges, r));
}

pub proof fn lemma_connected_trans(edges: Seq<TradingPair>, x: Seq<char>, y: Seq<char>, z: Seq<char>)
    requires
        connected(edges, x, y),
        connected(edges, y, z),
    ensures
        connected(edges, x, z),
{
    let w1 = choose|w: Seq<Seq<char>>| #[trigger] is_walk(edges, w) && w[0] == x && w.last() == y;
    let w2 = choose|w: Seq<Seq<char>>| #[trigger] is_walk(edges, w) && w[0] == y && w.last() == z;
    let w = w1 + w2.subrange(1, w2.len() as int);
    let n1 = w1.len();
    assert forall|i: int| 0 <= i < w.len() - 1 implies linked(edges, #[trigger] w[i], w[i + 1]) by {
        if i < n1 - 1 {
            assert(linked(edges, w1[i], w1[i + 1]));
        } else {
            let j = i - n1 + 1;
            assert(linked(edges, w2[j], w2[j + 1]));
        }
    }
    assert(is_walk(edges, w));
}

pub proof fn lemma_walk_in_closed(edges: Seq<TradingPair>, s: Seq<Seq<char>>, w: Seq<Seq<char>>)
    requires
        closed(edges, s),
        is_walk(edges, w),
        s.contains(w[0]),
    ensures
        s.contains(w.last()),
    decreases w.len(),
{
    if w.len() > 1 {
        let v = w.drop_last();
        assert forall|i: int| 0 <= i < v.len() - 1 implies linked(edges, #[trigger] v[i], v[i + 1]) by {
            assert(linked(edges, w[i], w[i + 1]));
        }
        lemma_walk_in_closed(edges, s, v);
        let k = w.len() - 2;
        assert(linked(edges, w[k], w[k + 1]));
        let j = choose|j: int| 0 <= j < s.len() && s[j] == v.last();
        assert(linked(edges, s[j], w.last()));
    }
}

/// The assets connected to `to_explore_start` when the pair list is taken as
/// undirected, `to_explore_start` itself included, each listed once.
pub fn find_connected_component(trading_pairs: &Vec<TradingPair>, to_explore_start: &String) -> (r: Vec<String>)
    ensures
        names(r@).no_duplicates(),
        forall|y: Seq<char>| names(r@).contains(y) <==> connected(trading_pairs@, to_explore_start@, y),
{
    let ghost edges = trading_pairs@;
    let ghost s = to_explore_start@;
    let ghost bound = asset_list(edges).push(s);
    let mut have_explored: Vec<String> = Vec::new();
    let mut to_explore: Vec<String> = Vec::new();
    to_explore.push(to_explore_start.clone());
    proof {
        lemma_connected_refl(edges, s);
        assert(names(to_explore@)[0] == s);
        assert(bound[bound.len() - 1] == s);
    }
    while to_explore.len() > 0
        invariant
            edges == trading_pairs@,
            bound == asset_list(edges).push(s),
            names(have_explored@).no_duplicates(),
            have_explored.len() <= bound.len(),
            forall|i: int|
                0 <= i < have_explored.len() ==> connected(edges, s, #[trigger] have_explored@[i]@)
                    && bound.contains(have_explored@[i]@),
            forall|i: int|
                0 <= i < to_explore.len() ==> connected(edges, s, #[trigger] to_explore@[i]@)
                    && bound.contains(to_explore@[i]@),
            names(have_explored@).contains(s) || names(to_explore@).contains(s),
            forall|i: int, y: Seq<char>|
                0 <= i < have_explored.len() && #[trigger] linked(edges, have_explored@[i]@, y)
                    ==> names(have_explored@).contains(y) || names(to_explore@).contains(y),
        decreases bound.len() - have_explored.len(), to_explore.len(),
    {
        let ghost st0 = to_explore@;
        let ghost ex0 = have_explored@;
        let a = to_explore.pop().unwrap();
        assert(a == st0.last());
        assert(connected(edges, s, st0[st0.len() - 1]@));
        if !contains_name(&have_explored, &a) {
            let ghost st1 = to_explore@;
            let mut k: usize = 0;
            while k < trading_pairs.len()
                invariant
                    edges == trading_pairs@,
                    bound == asset_list(edges).push(s),
                    connected(edges, s, a@),
                    0 <= k <= trading_pairs.len(),
                    to_explore.len() >= st1.len(),
                    forall|i: int| 0 <= i < st1.len() ==> to_explore@[i] == st1[i],
                    forall|i: int|
                        0 <= i < to_explore.len() ==> connected(edges, s, #[trigger] to_explore@[i]@)
                            && bound.contains(to_explore@[i]@),
                    forall|j: int|
                        0 <= j < k ==> ((#[trigger] edges[j]).base_asset@ == a@ ==> names(
                            to_explore@,
                        ).contains(edges[j].quote_asset@)) && (edges[j].quote_asset@ == a@
                            ==> names(to_explore@).contains(edges[j].base_asset@)),
                decreases trading_pairs.len() - k,
            {
                let ghost stk = to_explore@;
                let e = &trading_pairs[k];
                if e.base_asset == a {
                    to_explore.push(e.quote_asset.clone());
                    proof {
                        assert(is_edge(edges, a@, edges[k as int].quote_asset@));
                        lemma_connected_step(edges, s, a@, edges[k as int].quote_asset@);
                        assert(asset_list(edges)[2 * k + 1] == edges[k as int].quote_asset@);
                        assert(bound[2 * k + 1] == edges[k as int].quote_asset@);
                        assert(names(to_explore@)[to_explore.len() - 1] == edges[k as int].quote_asset@);
                    }
                }
                let ghost stm = to_explore@;
                if e.quote_asset == a {
                    to_explore.push(e.base_asset.clone());
                    proof {
                        assert(is_edge(edges, edges[k as int].base_asset@, a@));
                        lemma_connected_step(edges, s, a@, edges[k as int].base_asset@);
                        assert(asset_list(edges)[2 * k] == edges[k as int].base_asset@);
                        assert(bound[2 * k] == edges[k as int].base_asset@);
                        assert(names(to_explore@)[to_explore.len() - 1] == edges[k as int].base_asset@);
                    }
                }
                proof {
                    assert forall|j: int|
                        0 <= j < k + 1 implies ((#[trigger] edges[j]).base_asset@ == a@ ==> names(
                            to_explore@,
                        ).contains(edges[j].quote_asset@)) && (edges[j].quote_asset@ == a@
                            ==> names(to_explore@).contains(edges[j].base_asset@)) by {
                        if j < k {
                            if edges[j].base_asset@ == a@ {
                                let t = choose|t: int|
                                    0 <= t < names(stk).len() && names(stk)[t] == edges[j].quote_asset@;
                                assert(names(to_explore@)[t] == edges[j].quote_asset@);
                            }
                            if edges[j].quote_asset@ == a@ {
                                let t = choose|t: int|
                                    0 <= t < names(stk).len() && names(stk)[t] == edges[j].base_asset@;
                                assert(names(to_explore@)[t] == edges[j].base_asset@);
                            }
                        } else {
                            if edges[j].base_asset@ == a@ {
                                assert(names(to_explore@)[stk.len() as int] == edges[j].quote_asset@);
                            }
                        }
                    }
                }
                k = k + 1;
            }
            let ghost st2 = to_explore@;
            have_explored.push(a);
            proof {
                let ex1 = have_explored@;
                assert(names(ex1) == names(ex0).push(a@));
                assert(names(ex1).no_duplicates());
                assert forall|i: int| 0 <= i < ex1.len() implies bound.contains(#[trigger] names(ex1)[i]) by {
                    if i < ex0.len() {
                        assert(bound.contains(ex0[i]@));
                    } else {
                        assert(bound.contains(st0[st0.len() - 1]@));
                    }
                }
                lemma_distinct_within(names(ex1), bound);
                // membership carries over from the old stack and explored list
                assert forall|y: Seq<char>|
                    names(ex0).contains(y) || names(st0).contains(y)
                    implies names(ex1).contains(y) || names(st2).contains(y) by {
                    if names(ex0).contains(y) {
                        let t = choose|t: int| 0 <= t < names(ex0).len() && names(ex0)[t] == y;
                        assert(names(ex1)[t] == y);
                    } else {
                        let t = choose|t: int| 0 <= t < names(st0).len() && names(st0)[t] == y;
                        if t == st0.len() - 1 {
                            assert(names(ex1)[ex0.len() as int] == y);
                        } else {
                            assert(st2[t] == st1[t]);
                            assert(names(st2)[t] == y);
                        }
                    }
                }
                assert forall|i: int, y: Seq<char>|
                    0 <= i < ex1.len() && #[trigger] linked(edges, ex1[i]@, y)
                        implies names(ex1).contains(y) || names(st2).contains(y) by {
                    if i < ex0.len() {
                        assert(linked(edges, ex0[i]@, y));
                    } else {
                        if is_edge(edges, a@, y) {
                            let j = choose|j: int|
                                0 <= j < edges.len() && (#[trigger] edges[j]).base_asset@ == a@
                                    && edges[j].quote_asset@ == y;
                            assert(edges[j].base_asset@ == a@);
                        } else {
                            let j = choose|j: int|
                                0 <= j < edges.len() && (#[trigger] edges[j]).base_asset@ == y
                                    && edges[j].quote_asset@ == a@;
                            assert(edges[j].quote_asset@ == a@);
                        }
                    }
                }
                assert forall|i: int| 0 <= i < ex1.len() implies connected(edges, s, #[trigger] ex1[i]@) && bound.contains(ex1[i]@) by {
                    assert(bound.contains(names(ex1)[i]));
                    if i < ex0.len() {
                        assert(connected(edges, s, ex0[i]@));
                    }
                }
            }
        } else {
            proof {
                let t = choose|t: int| 0 <= t < names(ex0).len() && names(ex0)[t] == a@;
                assert forall|y: Seq<char>|
                    names(ex0).contains(y) || names(st0).contains(y)
                    implies names(ex0).contains(y) || names(to_explore@).contains(y) by {
                    if !names(ex0).contains(y) {
                        let u = choose|u: int| 0 <= u < names(st0).len() && names(st0)[u] == y;
                        if u == st0.len() - 1 {
                            assert(names(ex0)[t] == y);
                        } else {
                            assert(names(to_explore@)[u] == y);
                        }
                    }
                }
                assert forall|i: int, y: Seq<char>|
                    0 <= i < have_explored.len() && #[trigger] linked(edges, have_explored@[i]@, y)
                        implies names(have_explored@).contains(y) || names(to_explore@).contains(y) by {
                    assert(linked(edges, ex0[i]@, y));
                }
            }
        }
    }
    proof {
        assert(closed(edges, names(have_explored@))) by {
            assert forall|i: int, y: Seq<char>|
                0 <= i < names(have_explored@).len() && #[trigger] linked(edges, names(have_explored@)[i], y)
                    implies names(have_explored@).contains(y) by {
                assert(linked(edges, have_explored@[i]@, y));
            }
        }
        assert forall|y: Seq<char>|
            names(have_explored@).contains(y) <==> connected(edges, s, y) by {
            if names(have_explored@).contains(y) {
                let t = choose|t: int| 0 <= t < names(have_explored@).len() && names(have_explored@)[t] == y;
                assert(connected(edges, s, have_explored@[t]@));
            }
            if connected(edges, s, y) {
                let w = choose|w: Seq<Seq<char>>| #[trigger] is_walk(edges, w) && w[0] == s && w.last() == y;
                lemma_walk_in_closed(edges, names(have_explored@), w);
            }
        }
    }
    have_explored
}

/// The list of components: every asset of the list lies in exactly one of
/// them, and each is a whole connected class.
pub open spec fn is_partition(edges: Seq<TradingPair>, comps: Seq<Vec<String>>) -> bool {
    &&& forall|i: int| 0 <= i < comps.len() ==> names((#[trigger] comps[i])@).no_duplicates()
    &&& forall|x: Seq<char>|
        is_asset(edges, x) ==> exists|i: int| 0 <= i < comps.len() && #[trigger] names(comps[i]@).contains(x)
    &&& forall|i: int, j: int, x: Seq<char>|
        0 <= i < comps.len() && 0 <= j < comps.len() && i != j && #[trigger] names(comps[i]@).contains(x)
            ==> !#[trigger] names(comps[j]@).contains(x)
    &&& forall|i: int| 0 <= i < comps.len() ==> (#[trigger] comps[i]).len() > 0
    &&& forall|i: int, x: Seq<char>, y: Seq<char>|
        0 <= i < comps.len() && #[trigger] names(comps[i]@).contains(x) ==> (#[trigger] names(
            comps[i]@,
        ).contains(y) <==> connected(edges, x, y))
    &&& forall|i: int, x: Seq<char>|
        0 <= i < comps.len() && #[trigger] names(comps[i]@).contains(x) ==> is_asset(edges, x)
}

pub proof fn lemma_connected_asset(edges: Seq<TradingPair>, x: Seq<char>, y: Seq<char>)
    requires
        connected(edges, x, y),
        is_asset(edges, x),
    ensures
        is_asset(edges, y),
{
    let w = choose|w: Seq<Seq<char>>| #[trigger] is_walk(edges, w) && w[0] == x && w.last() == y;
    if w.len() > 1 {
        let k = w.len() - 2;
        assert(linked(edges, w[k], w[k + 1]));
        if is_edge(edges, w[k], y) {
            let j = choose|j: int|
                0 <= j < edges.len() && (#[trigger] edges[j]).base_asset@ == w[k] && edges[j].quote_asset@ == y;
            assert(mentions(edges[j], y));
        } else {
            let j = choose|j: int|
                0 <= j < edges.len() && (#[trigger] edges[j]).base_asset@ == y && edges[j].quote_asset@ == w[k];
            assert(mentions(edges[j], y));
        }
    }
}

fn extend_names(dst: &mut Vec<String>, src: &Vec<String>)
    ensures
        names(final(dst)@) == names(old(dst)@) + names(src@),
{
    let ghost d0 = dst@;
    let mut i: usize = 0;
    while i < src.len()
        invariant
            0 <= i <= src.len(),
            names(dst@) == names(d0) + names(src@).subrange(0, i as int),
        decreases src.len() - i,
    {
        let ghost prev = dst@;
        dst.push(src[i].clone());
        assert(names(dst@) =~= names(prev).push(src@[i as int]@));
        assert(names(src@).subrange(0, i + 1) =~= names(src@).subrange(0, i as int).push(src@[i as int]@));
        assert(names(dst@) =~= names(d0) + names(src@).subrange(0, i + 1));
        i = i + 1;
    }
    assert(names(src@).subrange(0, i as int) =~= names(src@));
}

/// Adds the component of `x` unless `x` is in `seen` already; `seen` lists
/// the members of all components.
fn add_component(trading_pairs: &Vec<TradingPair>, x: &String, comps: &mut Vec<Vec<String>>, seen: &mut Vec<String>)
    requires
        is_asset(trading_pairs@, x@),
        forall|y: Seq<char>|
            names(old(seen)@).contains(y) <==> exists|i: int|
                0 <= i < old(comps)@.len() && #[trigger] names(old(comps)@[i]@).contains(y),
        is_partition_but_cover(trading_pairs@, old(comps)@),
    ensures
        forall|y: Seq<char>|
            names(final(seen)@).contains(y) <==> exists|i: int|
                0 <= i < final(comps)@.len() && #[trigger] names(final(comps)@[i]@).contains(y),
        is_partition_but_cover(trading_pairs@, final(comps)@),
        names(final(seen)@).contains(x@),
        forall|y: Seq<char>| names(old(seen)@).contains(y) ==> names(final(seen)@).contains(y),
{
    let ghost edges = trading_pairs@;
    if !contains_name(seen, x) {
        let cc = find_connected_component(trading_pairs, x);
        let ghost c0 = comps@;
        let ghost s0 = seen@;
        extend_names(seen, &cc);
        comps.push(cc);
        proof {
            let c1 = comps@;
            let n = c0.len() as int;
            assert(c1[n] == cc);
            lemma_connected_refl(edges, x@);
            assert(names(cc@).contains(x@));
            assert forall|y: Seq<char>|
                names(seen@).contains(y) <==> exists|i: int|
                    0 <= i < c1.len() && #[trigger] names(c1[i]@).contains(y) by {
                if names(seen@).contains(y) {
                    let t = choose|t: int| 0 <= t < names(seen@).len() && names(seen@)[t] == y;
                    if t < s0.len() {
                        assert(names(s0)[t] == y);
                        assert(names(s0).contains(y));
                        let i = choose|i: int| 0 <= i < c0.len() && #[trigger] names(c0[i]@).contains(y);
                        assert(c1[i] == c0[i]);
                    } else {
                        assert(names(cc@)[t - s0.len()] == y);
                        assert(names(c1[n]@).contains(y));
                    }
                }
                if exists|i: int| 0 <= i < c1.len() && #[trigger] names(c1[i]@).contains(y) {
                    let i = choose|i: int| 0 <= i < c1.len() && #[trigger] names(c1[i]@).contains(y);
                    if i < n {
                        assert(c1[i] == c0[i]);
                        assert(names(s0).contains(y));
                        let t = choose|t: int| 0 <= t < names(s0).len() && names(s0)[t] == y;
                        assert(names(seen@)[t] == y);
                    } else {
                        let t = choose|t: int| 0 <= t < names(cc@).len() && names(cc@)[t] == y;
                        assert(names(seen@)[s0.len() + t] == y);
                    }
                }
            }
            assert forall|i: int, j: int, y: Seq<char>|
                0 <= i < c1.len() && 0 <= j < c1.len() && i != j && #[trigger] names(c1[i]@).contains(y)
                    implies !#[trigger] names(c1[j]@).contains(y) by {
                if i < n && j < n {
                    assert(c1[i] == c0[i] && c1[j] == c0[j]);
                } else if names(c1[j]@).contains(y) {
                    let k = if i < n { i } else { j };
                    assert(c1[k] == c0[k]);
                    assert(names(c0[k]@).contains(y));
                    assert(connected(edges, x@, y));
                    lemma_connected_sym(edges, x@, y);
                    assert(names(c0[k]@).contains(x@));
                    assert(names(s0).contains(x@));
                }
            }
            assert forall|i: int, a: Seq<char>, y: Seq<char>|
                0 <= i < c1.len() && #[trigger] names(c1[i]@).contains(a) implies (#[trigger] names(
                    c1[i]@,
                ).contains(y) <==> connected(edges, a, y)) by {
                if i < n {
                    assert(c1[i] == c0[i]);
                } else {
                    assert(connected(edges, x@, a));
                    lemma_connected_sym(edges, x@, a);
                    if connected(edges, a, y) {
                        lemma_connected_trans(edges, x@, a, y);
                    }
                    if connected(edges, x@, y) {
                        lemma_connected_trans(edges, a, x@, y);
                    }
                }
            }
            assert forall|i: int, a: Seq<char>|
                0 <= i < c1.len() && #[trigger] names(c1[i]@).contains(a) implies is_asset(edges, a) by {
                if i < n {
                    assert(c1[i] == c0[i]);
                } else {
                    lemma_connected_asset(edges, x@, a);
                }
            }
            assert forall|i: int| 0 <= i < c1.len() implies names((#[trigger] c1[i])@).no_duplicates() by {
                if i < n {
                    assert(c1[i] == c0[i]);
                }
            }
            assert forall|i: int| 0 <= i < c1.len() implies (#[trigger] c1[i]).len() > 0 by {
                if i < n {
                    assert(c1[i] == c0[i]);
                } else {
                    assert(names(cc@).len() > 0);
                }
            }
            assert forall|y: Seq<char>| names(s0).contains(y) implies names(seen@).contains(y) by {
                let t = choose|t: int| 0 <= t < names(s0).len() && names(s0)[t] == y;
                assert(names(seen@)[t] == y);
            }
            assert(names(seen@)[s0.len() as int] == names(cc@)[0]);
        }
    }
}

/// All clauses of `is_partition` but the first.
pub open spec fn is_partition_but_cover(edges: Seq<TradingPair>, comps: Seq<Vec<String>>) -> bool {
    &&& forall|i: int| 0 <= i < comps.len() ==> names((#[trigger] comps[i])@).no_duplicates()
    &&& forall|i: int, j: int, x: Seq<char>|
        0 <= i < comps.len() && 0 <= j < comps.len() && i != j && #[trigger] names(comps[i]@).contains(x)
            ==> !#[trigger] names(comps[j]@).contains(x)
    &&& forall|i: int| 0 <= i < comps.len() ==> (#[trigger] comps[i]).len() > 0
    &&& forall|i: int, x: Seq<char>, y: Seq<char>|
        0 <= i < comps.len() && #[trigger] names(comps[i]@).contains(x) ==> (#[trigger] names(
            comps[i]@,
        ).contains(y) <==> connected(edges, x, y))
    &&& forall|i: int, x: Seq<char>|
        0 <= i < comps.len() && #[trigger] names(comps[i]@).contains(x) ==> is_asset(edges, x)
}

/// Splits the assets of the list into connected components, the list taken as
/// undirected.
pub fn find_connected_components(trading_pairs: &Vec<TradingPair>) -> (r: Vec<Vec<String>>)
    ensures
        is_partition(trading_pairs@, r@),
{
    let ghost edges = trading_pairs@;
    let mut comps: Vec<Vec<String>> = Vec::new();
    let mut seen: Vec<String> = Vec::new();
    let mut k: usize = 0;
    while k < trading_pairs.len()
        invariant
            edges == trading_pairs@,
            0 <= k <= trading_pairs.len(),
            forall|y: Seq<char>|
                names(seen@).contains(y) <==> exists|i: int|
                    0 <= i < comps@.len() && #[trigger] names(comps@[i]@).contains(y),
            is_partition_but_cover(edges, comps@),
            forall|j: int|
                0 <= j < k ==> names(seen@).contains((#[trigger] edges[j]).base_asset@) && names(
                    seen@,
                ).contains(edges[j].quote_asset@),
        decreases trading_pairs.len() - k,
    {
        let ghost s0 = seen@;
        assert(mentions(edges[k as int], edges[k as int].base_asset@));
        assert(mentions(edges[k as int], edges[k as int].quote_asset@));
        add_component(trading_pairs, &trading_pairs[k].base_asset, &mut comps, &mut seen);
        add_component(trading_pairs, &trading_pairs[k].quote_asset, &mut comps, &mut seen);
        k = k + 1;
    }
    proof {
        assert forall|x: Seq<char>| is_asset(edges, x) implies exists|i: int|
            0 <= i < comps@.len() && #[trigger] names(comps@[i]@).contains(x) by {
            let j = choose|j: int| 0 <= j < edges.len() && #[trigger] mentions(edges[j], x);
            assert(names(seen@).contains(edges[j].base_asset@));
            assert(names(seen@).contains(x));
        }
    }
    comps
}

/// The assets named by the list.
pub open spec fn asset_set(edges: Seq<TradingPair>) -> Set<Seq<char>> {
    Set::new(|x: Seq<char>| is_asset(edges, x))
}

/// When every two assets of a non-empty list are connected, a partition into
/// components has exactly one component, which holds every asset once.
pub proof fn lemma_connected_graph_one_component(edges: Seq<TradingPair>, comps: Seq<Vec<String>>)
    requires
        is_partition(edges, comps),
        edges.len() > 0,
        forall|x: Seq<char>, y: Seq<char>|
            is_asset(edges, x) && is_asset(edges, y) ==> #[trigger] connected(edges, x, y),
    ensures
        comps.len() == 1,
        names(comps[0]@).to_set() == asset_set(edges),
        comps[0].len() == asset_set(edges).len(),
{
    let x = edges[0].base_asset@;
    assert(mentions(edges[0], x));
    assert(is_asset(edges, x));
    let i0 = choose|i: int| 0 <= i < comps.len() && #[trigger] names(comps[i]@).contains(x);
    assert forall|i: int| 0 <= i < comps.len() implies #[trigger] comps[i] == comps[i0] && i == i0 by {
        assert(comps[i].len() > 0);
        let y = names(comps[i]@)[0];
        assert(names(comps[i]@).contains(y));
        assert(is_asset(edges, y));
        assert(connected(edges, x, y));
        assert(names(comps[i0]@).contains(y));
    }
    assert(comps[0] == comps[i0] && 0 == i0);
    if comps.len() > 1 {
        assert(comps[1] == comps[i0] && 1 == i0);
    }
    let s = names(comps[0]@);
    assert(s.to_set() =~= asset_set(edges)) by {
        assert forall|y: Seq<char>| s.to_set().contains(y) <==> asset_set(edges).contains(y) by {
            if is_asset(edges, y) {
                assert(connected(edges, x, y));
            }
        }
    }
    s.unique_seq_to_set();
}

} // verus!
