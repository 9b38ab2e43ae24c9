//! The best-rate search over simple paths of numbered assets.
//!
//! An explicit stack of states (a path and its value) is explored
//! depth-first. A popped state is dropped when the memo entry of its last
//! asset is worth at least as much and uses only assets that the state uses:
//! every extension of the state then extends the memo entry as well, and is
//! worth no more. Otherwise the state is expanded and may replace the memo
//! entry. Ghost sets of expanded and dropped paths carry the proof that, once
//! the stack is empty, the memo entry of each asset is the best value over all
//! simple paths to it. The work is exponential in the number of assets in the
//! worst case.
use vstd::prelude::*;
use crate::pair::{TradingPair, Rate, UNIT, convert, convert_amount, hop_rate, valid_rates, lemma_convert_monotone, lemma_hop_rate_valid};
use crate::connections::{Connections, contains_index};
use crate::rate::path_value;
use crate::seqs::lemma_distinct_within;

verus! {

/// A search state: a simple path of asset numbers and its value.
pub struct RateOptimData {
    pub path: Vec<usize>,
    pub cumulative_rate: u64,
}

/// The asset names along a path of asset numbers.
pub open spec fn name_path(c: Connections, p: Seq<usize>) -> Seq<Seq<char>> {
    p.map_values(|i: usize| c.name(i as int))
}

/// A path of asset numbers from `s` through distinct assets along steps.
pub open spec fn valid_ipath(c: Connections, s: usize, p: Seq<usize>) -> bool {
    &&& p.len() >= 1
    &&& p[0] == s
    &&& p.no_duplicates()
    &&& forall|i: int| 0 <= i < p.len() ==> #[trigger] p[i] < c.names.len()
    &&& forall|i: int| 0 <= i < p.len() - 1 ==> c.step(#[trigger] p[i], p[i + 1])
}

/// The value of a path of asset numbers.
pub open spec fn ival(edges: Seq<TradingPair>, c: Connections, p: Seq<usize>) -> u64 {
    path_value(edges, name_path(c, p))
}

/// Every element of `m` occurs in `z`.
pub open spec fn uses_only(m: Seq<usize>, z: Seq<usize>) -> bool {
    forall|i: int| 0 <= i < m.len() ==> z.contains(#[trigger] m[i])
}

/// `d` is worth more than `v`, or as much and its path is no longer than `len`.
pub open spec fn at_least(d: RateOptimData, v: u64, len: nat) -> bool {
    d.cumulative_rate > v || (d.cumulative_rate == v && d.path@.len() <= len)
}

/// Some state on the stack holds path `p`.
pub open spec fn in_stack(st: Seq<RateOptimData>, p: Seq<usize>) -> bool {
    exists|i: int| 0 <= i < st.len() && (#[trigger] st[i]).path@ == p
}

/// Bounds the work left below a state whose path leaves `j` assets unused.
pub open spec fn w_of(n: nat, j: nat) -> nat
    decreases j,
{
    if j == 0 {
        1
    } else {
        n * w_of(n, (j - 1) as nat) + 1
    }
}

/// The sum of the bounds of the states on the stack; it drops at every step.
pub open spec fn stack_weight(n: nat, st: Seq<RateOptimData>) -> nat
    decreases st.len(),
{
    if st.len() == 0 {
        0
    } else {
        stack_weight(n, st.drop_last()) + w_of(n, (n - st.last().path@.len()) as nat)
    }
}

proof fn lemma_stack_weight_push(n: nat, st: Seq<RateOptimData>, x: RateOptimData)
    ensures
        stack_weight(n, st.push(x)) == stack_weight(n, st) + w_of(n, (n - x.path@.len()) as nat),
{
    assert(st.push(x).drop_last() =~= st);
}

proof fn lemma_w_unfold(n: nat, j: nat)
    requires
        j > 0,
    ensures
        w_of(n, j) == n * w_of(n, (j - 1) as nat) + 1,
{
}

proof fn lemma_w_pos(n: nat, j: nat)
    ensures
        w_of(n, j) >= 1,
{
}

proof fn lemma_ipath_len(c: Connections, s: usize, p: Seq<usize>)
    requires
        valid_ipath(c, s, p),
    ensures
        p.len() <= c.names.len(),
{
    let t = Seq::new(c.names.len() as nat, |i: int| i as usize);
    assert forall|i: int| 0 <= i < p.len() implies t.contains(#[trigger] p[i]) by {
        assert(t[p[i] as int] == p[i]);
    }
    lemma_distinct_within(p, t);
}

proof fn lemma_ival_push(edges: Seq<TradingPair>, c: Connections, p: Seq<usize>, b: usize)
    requires
        p.len() >= 1,
    ensures
        ival(edges, c, p.push(b)) == convert(
            ival(edges, c, p),
            hop_rate(edges, c.name(p.last() as int), c.name(b as int)),
        ),
{
    let q = name_path(c, p.push(b));
    assert(q.drop_last() =~= name_path(c, p));
    assert(q[q.len() - 2] == c.name(p.last() as int));
}

/// Whether every element of `a` occurs in `b`.
pub fn is_subset(a: &Vec<usize>, b: &Vec<usize>) -> (r: bool)
    ensures
        r == uses_only(a@, b@),
{
    let mut i: usize = 0;
    while i < a.len()
        invariant
            0 <= i <= a.len(),
            forall|j: int| 0 <= j < i ==> b@.contains(#[trigger] a@[j]),
        decreases a.len() - i,
    {
        if !contains_index(b, a[i]) {
            return false;
        }
        i = i + 1;
    }
    true
}

fn copy_push(v: &Vec<usize>, x: usize) -> (r: Vec<usize>)
    ensures
        r@ == v@.push(x),
{
    let mut r: Vec<usize> = Vec::new();
    let mut i: usize = 0;
    while i < v.len()
        invariant
            0 <= i <= v.len(),
            r@ == v@.subrange(0, i as int),
        decreases v.len() - i,
    {
        r.push(v[i]);
        assert(v@.subrange(0, i + 1) =~= v@.subrange(0, i as int).push(v@[i as int]));
        i = i + 1;
    }
    assert(v@.subrange(0, i as int) =~= v@);
    r.push(x);
    r
}

/// The rate map matches `c`: `rates[a][k]` values the step `next[a][k]`.
pub open spec fn rates_for(edges: Seq<TradingPair>, c: Connections, rates: Seq<Vec<Rate>>) -> bool {
    &&& rates.len() == c.names.len()
    &&& forall|a: int|
        0 <= a < rates.len() ==> (#[trigger] rates[a]).len() == c.next@[a].len() && forall|k: int|
            0 <= k < rates[a].len() ==> #[trigger] rates[a]@[k] == hop_rate(
                edges,
                c.name(a),
                c.name(c.next@[a]@[k] as int),
            )
}

/// The search runs on a graph and rate map built from `edges`.
#[verifier::opaque]
pub open spec fn search_env(edges: Seq<TradingPair>, c: Connections, rates: Seq<Vec<Rate>>) -> bool {
    &&& valid_rates(edges)
    &&& c.wf_for(edges)
    &&& rates_for(edges, c, rates)
}

/// The search invariant once the stack is empty: every simple path from `s`
/// is matched or beaten by an expanded state that ends where it ends and
/// uses no asset that it does not use.
proof fn lemma_search_complete(
    edges: Seq<TradingPair>,
    c: Connections,
    s: usize,
    expanded: Set<Seq<usize>>,
    pruned: Set<Seq<usize>>,
    q: Seq<usize>,
)
    requires
        valid_rates(edges),
        c.wf_for(edges),
        valid_ipath(c, s, q),
        forall|x: Seq<usize>| #[trigger] expanded.contains(x) ==> valid_ipath(c, s, x),
        forall|x: Seq<usize>, b: usize|
            #[trigger] expanded.contains(x) && b < c.names.len() && #[trigger] c.step(x.last(), b) && !x.contains(b)
                ==> expanded.contains(x.push(b)) || pruned.contains(x.push(b)),
        forall|z: Seq<usize>|
            #[trigger] pruned.contains(z) ==> exists|m: Seq<usize>|
                #[trigger] expanded.contains(m) && m.last() == z.last() && ival(edges, c, m) >= ival(edges, c, z)
                    && uses_only(m, z),
        expanded.contains(seq![s]) || pruned.contains(seq![s]),
    ensures
        exists|m: Seq<usize>|
            #[trigger] expanded.contains(m) && m.last() == q.last() && ival(edges, c, m) >= ival(edges, c, q)
                && uses_only(m, q),
    decreases q.len(),
{
    if q.len() == 1 {
        assert(q =~= seq![s]);
        if expanded.contains(seq![s]) {
            assert(uses_only(q, q)) by {
                assert forall|i: int| 0 <= i < q.len() implies q.contains(#[trigger] q[i]) by {}
            }
        } else {
            let m = choose|m: Seq<usize>|
                #[trigger] expanded.contains(m) && m.last() == q.last() && ival(edges, c, m) >= ival(edges, c, q)
                    && uses_only(m, q);
        }
    } else {
        let q0 = q.drop_last();
        let b = q.last();
        assert(valid_ipath(c, s, q0)) by {
            assert forall|i: int| 0 <= i < q0.len() - 1 implies c.step(#[trigger] q0[i], q0[i + 1]) by {
                assert(c.step(q[i], q[i + 1]));
            }
            assert forall|i: int| 0 <= i < q0.len() implies #[trigger] q0[i] < c.names.len() by {
                assert(q[i] < c.names.len());
            }
        }
        lemma_search_complete(edges, c, s, expanded, pruned, q0);
        let m0 = choose|m: Seq<usize>|
            #[trigger] expanded.contains(m) && m.last() == q0.last() && ival(edges, c, m) >= ival(edges, c, q0)
                && uses_only(m, q0);
        let k = q.len() - 2;
        assert(c.step(q[k], q[k + 1]));
        assert(b < c.names.len());
        assert(!m0.contains(b)) by {
            if m0.contains(b) {
                let i = choose|i: int| 0 <= i < m0.len() && m0[i] == b;
                assert(q0.contains(m0[i]));
                let j = choose|j: int| 0 <= j < q0.len() && q0[j] == b;
                assert(q[j] == q[q.len() - 1]);
            }
        }
        assert(c.step(m0.last(), b));
        let child = m0.push(b);
        assert(expanded.contains(child) || pruned.contains(child));
        let hr = hop_rate(edges, c.name(q0.last() as int), c.name(b as int));
        lemma_hop_rate_valid(edges, c.name(q0.last() as int), c.name(b as int));
        assert(valid_ipath(c, s, m0));
        lemma_ival_push(edges, c, m0, b);
        assert(q0.push(b) =~= q);
        lemma_ival_push(edges, c, q0, b);
        lemma_convert_monotone(ival(edges, c, q0), ival(edges, c, m0), hr);
        assert(ival(edges, c, child) >= ival(edges, c, q));
        assert(uses_only(child, q)) by {
            assert forall|i: int| 0 <= i < child.len() implies q.contains(#[trigger] child[i]) by {
                if i < m0.len() {
                    assert(q0.contains(m0[i]));
                    let j = choose|j: int| 0 <= j < q0.len() && q0[j] == m0[i];
                    assert(q[j] == m0[i]);
                } else {
                    assert(q[q.len() - 1] == b);
                }
            }
        }
        if expanded.contains(child) {
            assert(child.last() == q.last());
        } else {
            let m = choose|m: Seq<usize>|
                #[trigger] expanded.contains(m) && m.last() == child.last() && ival(edges, c, m) >= ival(
                    edges,
                    c,
                    child,
                ) && uses_only(m, child);
            assert(uses_only(m, q)) by {
                assert forall|i: int| 0 <= i < m.len() implies q.contains(#[trigger] m[i]) by {
                    assert(child.contains(m[i]));
                    let j = choose|j: int| 0 <= j < child.len() && child[j] == m[i];
                    assert(q.contains(child[j]));
                }
            }
        }
    }
}

/// The search state invariant, with the ghost records of expanded and
/// pruned paths.
#[verifier::opaque]
pub open spec fn search_inv(
    edges: Seq<TradingPair>,
    c: Connections,
    s: usize,
    memo: Seq<Option<RateOptimData>>,
    stack: Seq<RateOptimData>,
    expanded: Set<Seq<usize>>,
    pruned: Set<Seq<usize>>,
) -> bool {
    let n = c.names.len();
    &&& memo.len() == n
    &&& stack_valid(edges, c, s, stack)
    &&& forall|a: int|
        0 <= a < n && (#[trigger] memo[a]).is_some() ==> {
            let d = memo[a].unwrap();
            &&& valid_ipath(c, s, d.path@)
            &&& d.path@.last() == a
            &&& d.cumulative_rate == ival(edges, c, d.path@)
            &&& expanded.contains(d.path@)
        }
    &&& forall|x: Seq<usize>|
        #[trigger] expanded.contains(x) ==> valid_ipath(c, s, x) && memo[x.last() as int].is_some() && at_least(
            memo[x.last() as int].unwrap(),
            ival(edges, c, x),
            x.len(),
        )
    &&& forall|x: Seq<usize>, b: usize|
        #[trigger] expanded.contains(x) && b < n && #[trigger] c.step(x.last(), b) && !x.contains(b) ==> in_stack(
            stack,
            x.push(b),
        ) || expanded.contains(x.push(b)) || pruned.contains(x.push(b))
    &&& forall|z: Seq<usize>|
        #[trigger] pruned.contains(z) ==> exists|m: Seq<usize>|
            #[trigger] expanded.contains(m) && m.last() == z.last() && ival(edges, c, m) >= ival(edges, c, z)
                && uses_only(m, z)
    &&& in_stack(stack, seq![s]) || expanded.contains(seq![s]) || pruned.contains(seq![s])
}

/// Every state on the stack is a valid path with its value.
#[verifier::opaque]
pub open spec fn stack_valid(edges: Seq<TradingPair>, c: Connections, s: usize, stack: Seq<RateOptimData>) -> bool {
    forall|i: int|
        0 <= i < stack.len() ==> valid_ipath(c, s, (#[trigger] stack[i]).path@) && stack[i].cumulative_rate
            == ival(edges, c, stack[i].path@)
}

/// Whatever was on `st0` but its last entry is still on `st`.
proof fn lemma_in_stack_kept(st0: Seq<RateOptimData>, st: Seq<RateOptimData>, p: Seq<usize>)
    requires
        st0.len() >= 1,
        st.len() >= st0.len() - 1,
        forall|i: int| 0 <= i < st0.len() - 1 ==> st[i] == st0[i],
        in_stack(st0, p),
    ensures
        in_stack(st, p) || p == st0.last().path@,
{
    let i = choose|i: int| 0 <= i < st0.len() && (#[trigger] st0[i]).path@ == p;
    if i < st0.len() - 1 {
        assert(st[i] == st0[i]);
    }
}

proof fn lemma_search_start(edges: Seq<TradingPair>, c: Connections, s: usize, memo: Seq<Option<RateOptimData>>, stack: Seq<RateOptimData>)
    requires
        s < c.names.len(),
        memo.len() == c.names.len(),
        forall|j: int| 0 <= j < memo.len() ==> (#[trigger] memo[j]).is_none(),
        stack.len() == 1,
        stack[0].path@ == seq![s],
        stack[0].cumulative_rate == UNIT,
    ensures
        search_inv(edges, c, s, memo, stack, Set::empty(), Set::empty()),
{
    reveal(search_inv);
    reveal(stack_valid);
    assert(name_path(c, seq![s]).len() == 1);
    assert(valid_ipath(c, s, seq![s]));
}

proof fn lemma_pop(
    edges: Seq<TradingPair>,
    c: Connections,
    s: usize,
    memo: Seq<Option<RateOptimData>>,
    st0: Seq<RateOptimData>,
    st1: Seq<RateOptimData>,
    data: RateOptimData,
    expanded: Set<Seq<usize>>,
    pruned: Set<Seq<usize>>,
)
    requires
        search_inv(edges, c, s, memo, st0, expanded, pruned),
        st0 == st1.push(data),
    ensures
        valid_ipath(c, s, data.path@),
        data.path@.last() < c.names.len(),
        data.cumulative_rate == ival(edges, c, data.path@),
        stack_valid(edges, c, s, st1),
        memo[data.path@.last() as int].is_some() ==> memo[data.path@.last() as int].unwrap().path@.len() >= 1,
{
    reveal(search_inv);
    reveal(stack_valid);
    assert(st0[st0.len() - 1] == data);
    assert forall|i: int|
        0 <= i < st1.len() implies valid_ipath(c, s, (#[trigger] st1[i]).path@) && st1[i].cumulative_rate
            == ival(edges, c, st1[i].path@) by {
        assert(st1[i] == st0[i]);
    }
}

proof fn lemma_prune_step(
    edges: Seq<TradingPair>,
    c: Connections,
    s: usize,
    memo: Seq<Option<RateOptimData>>,
    st0: Seq<RateOptimData>,
    st1: Seq<RateOptimData>,
    data: RateOptimData,
    expanded: Set<Seq<usize>>,
    pruned: Set<Seq<usize>>,
)
    requires
        search_inv(edges, c, s, memo, st0, expanded, pruned),
        st0 == st1.push(data),
        data.path@.len() >= 1,
        data.path@.last() < c.names.len(),
        memo[data.path@.last() as int].is_some(),
        memo[data.path@.last() as int].unwrap().cumulative_rate >= data.cumulative_rate,
        uses_only(memo[data.path@.last() as int].unwrap().path@, data.path@),
    ensures
        search_inv(edges, c, s, memo, st1, expanded, pruned.insert(data.path@)),
{
    reveal(search_inv);
    reveal(stack_valid);
    let a = data.path@.last() as int;
    let dp = data.path@;
    let m = memo[a].unwrap();
    let grown = pruned.insert(dp);
    assert(st0[st0.len() - 1] == data);
    assert(expanded.contains(m.path@));
    assert forall|x: Seq<usize>, b: usize|
        #[trigger] expanded.contains(x) && b < c.names.len() && #[trigger] c.step(x.last(), b) && !x.contains(b)
            implies in_stack(st1, x.push(b)) || expanded.contains(x.push(b)) || grown.contains(x.push(b)) by {
        if in_stack(st0, x.push(b)) {
            lemma_in_stack_kept(st0, st1, x.push(b));
        }
    }
    assert forall|z: Seq<usize>|
        #[trigger] grown.contains(z) implies exists|m2: Seq<usize>|
            #[trigger] expanded.contains(m2) && m2.last() == z.last() && ival(edges, c, m2) >= ival(edges, c, z)
                && uses_only(m2, z) by {
        if z == dp {
            assert(expanded.contains(m.path@) && m.path@.last() == z.last());
        }
    }
    if in_stack(st0, seq![s]) {
        lemma_in_stack_kept(st0, st1, seq![s]);
    }
    assert forall|i: int|
        0 <= i < st1.len() implies valid_ipath(c, s, (#[trigger] st1[i]).path@) && st1[i].cumulative_rate
            == ival(edges, c, st1[i].path@) by {
        assert(st1[i] == st0[i]);
    }
}

proof fn lemma_expand_step(
    edges: Seq<TradingPair>,
    c: Connections,
    s: usize,
    memo0: Seq<Option<RateOptimData>>,
    memo1: Seq<Option<RateOptimData>>,
    st0: Seq<RateOptimData>,
    st1: Seq<RateOptimData>,
    st2: Seq<RateOptimData>,
    data: RateOptimData,
    expanded: Set<Seq<usize>>,
    pruned: Set<Seq<usize>>,
)
    requires
        search_inv(edges, c, s, memo0, st0, expanded, pruned),
        st0 == st1.push(data),
        data.path@.len() >= 1,
        data.path@.last() < c.names.len(),
        st2.len() >= st1.len(),
        forall|i: int| 0 <= i < st1.len() ==> st2[i] == st1[i],
        stack_valid(edges, c, s, st2),
        forall|b: usize|
            b < c.names.len() && #[trigger] c.step(data.path@.last(), b) && !data.path@.contains(b) ==> in_stack(
                st2,
                data.path@.push(b),
            ),
        memo1.len() == memo0.len(),
        forall|a2: int| 0 <= a2 < memo0.len() && a2 != data.path@.last() ==> memo1[a2] == memo0[a2],
        memo1[data.path@.last() as int] == Some(data) || (memo1[data.path@.last() as int] == memo0[data.path@.last() as int]
            && memo0[data.path@.last() as int].is_some() && at_least(
            memo0[data.path@.last() as int].unwrap(),
            data.cumulative_rate,
            data.path@.len(),
        )),
        memo0[data.path@.last() as int].is_some() ==> at_least(
            memo1[data.path@.last() as int].unwrap(),
            memo0[data.path@.last() as int].unwrap().cumulative_rate,
            memo0[data.path@.last() as int].unwrap().path@.len(),
        ),
    ensures
        search_inv(edges, c, s, memo1, st2, expanded.insert(data.path@), pruned),
{
    reveal(search_inv);
    reveal(stack_valid);
    let a = data.path@.last() as int;
    let dp = data.path@;
    let e2 = expanded.insert(dp);
    assert(st0[st0.len() - 1] == data);
    assert(valid_ipath(c, s, dp) && data.cumulative_rate == ival(edges, c, dp));
    assert forall|x: Seq<usize>, b: usize|
        #[trigger] e2.contains(x) && b < c.names.len() && #[trigger] c.step(x.last(), b) && !x.contains(b)
            implies in_stack(st2, x.push(b)) || e2.contains(x.push(b)) || pruned.contains(x.push(b)) by {
        if x == dp {
        } else if in_stack(st0, x.push(b)) {
            lemma_in_stack_kept(st0, st2, x.push(b));
        }
    }
    assert forall|x: Seq<usize>|
        #[trigger] e2.contains(x) implies valid_ipath(c, s, x) && memo1[x.last() as int].is_some() && at_least(
            memo1[x.last() as int].unwrap(),
            ival(edges, c, x),
            x.len(),
        ) by {
        if x != dp && x.last() != a {
            assert(memo1[x.last() as int] == memo0[x.last() as int]);
        } else if x != dp {
            let m0 = memo0[a].unwrap();
            assert(at_least(m0, ival(edges, c, x), x.len()));
            assert(m0.cumulative_rate == ival(edges, c, m0.path@));
        }
    }
    assert forall|a2: int|
        0 <= a2 < c.names.len() && (#[trigger] memo1[a2]).is_some() implies {
            let d = memo1[a2].unwrap();
            &&& valid_ipath(c, s, d.path@)
            &&& d.path@.last() == a2
            &&& d.cumulative_rate == ival(edges, c, d.path@)
            &&& e2.contains(d.path@)
        } by {
        if a2 != a {
            assert(memo1[a2] == memo0[a2]);
        }
    }
    assert forall|z: Seq<usize>|
        #[trigger] pruned.contains(z) implies exists|m: Seq<usize>|
            #[trigger] e2.contains(m) && m.last() == z.last() && ival(edges, c, m) >= ival(edges, c, z)
                && uses_only(m, z) by {
        let m = choose|m: Seq<usize>|
            #[trigger] expanded.contains(m) && m.last() == z.last() && ival(edges, c, m) >= ival(edges, c, z)
                && uses_only(m, z);
        assert(e2.contains(m));
    }
    if in_stack(st0, seq![s]) {
        lemma_in_stack_kept(st0, st2, seq![s]);
    }
}

proof fn lemma_search_end(
    edges: Seq<TradingPair>,
    c: Connections,
    s: usize,
    e: usize,
    memo: Seq<Option<RateOptimData>>,
    stack: Seq<RateOptimData>,
    expanded: Set<Seq<usize>>,
    pruned: Set<Seq<usize>>,
)
    requires
        valid_rates(edges),
        c.wf_for(edges),
        e < c.names.len(),
        search_inv(edges, c, s, memo, stack, expanded, pruned),
        stack.len() == 0,
    ensures
        memo[e as int].is_some() ==> {
            let d = memo[e as int].unwrap();
            &&& valid_ipath(c, s, d.path@)
            &&& d.path@.last() == e
            &&& d.cumulative_rate == ival(edges, c, d.path@)
        },
        forall|q: Seq<usize>|
            #[trigger] valid_ipath(c, s, q) && q.last() == e ==> memo[e as int].is_some() && ival(edges, c, q)
                <= memo[e as int].unwrap().cumulative_rate && (ival(edges, c, q)
                == memo[e as int].unwrap().cumulative_rate ==> memo[e as int].unwrap().path@.len() <= q.len()),
{
    reveal(search_inv);
    assert forall|q: Seq<usize>| #[trigger] valid_ipath(c, s, q) && q.last() == e implies memo[e as int].is_some()
        && ival(edges, c, q) <= memo[e as int].unwrap().cumulative_rate && (ival(edges, c, q)
        == memo[e as int].unwrap().cumulative_rate ==> memo[e as int].unwrap().path@.len() <= q.len()) by {
        lemma_search_complete(edges, c, s, expanded, pruned, q);
        let m = choose|m: Seq<usize>|
            #[trigger] expanded.contains(m) && m.last() == q.last() && ival(edges, c, m) >= ival(edges, c, q)
                && uses_only(m, q);
        assert(m.len() <= q.len()) by {
            assert forall|i: int| 0 <= i < m.len() implies q.contains(#[trigger] m[i]) by {}
            lemma_distinct_within(m, q);
        }
    }
}

/// Pushes the extension of `data` by `b` onto the stack.
fn push_child(
    Ghost(edges): Ghost<Seq<TradingPair>>,
    conn: &Connections,
    s: usize,
    data: &RateOptimData,
    b: usize,
    rate: Rate,
    to_explore: &mut Vec<RateOptimData>,
)
    requires
        valid_ipath(*conn, s, data.path@),
        data.cumulative_rate == ival(edges, *conn, data.path@),
        b < conn.names.len(),
        conn.step(data.path@.last(), b),
        !data.path@.contains(b),
        rate.num > 0,
        rate == hop_rate(edges, conn.name(data.path@.last() as int), conn.name(b as int)),
        stack_valid(edges, *conn, s, old(to_explore)@),
    ensures
        final(to_explore)@.len() == old(to_explore)@.len() + 1,
        forall|i: int| 0 <= i < old(to_explore)@.len() ==> final(to_explore)@[i] == old(to_explore)@[i],
        final(to_explore)@.last().path@ == data.path@.push(b),
        stack_valid(edges, *conn, s, final(to_explore)@),
        data.path@.len() < conn.names.len(),
        stack_weight(conn.names@.len(), final(to_explore)@) == stack_weight(conn.names@.len(), old(to_explore)@)
            + w_of(conn.names@.len(), (conn.names.len() - data.path@.len() - 1) as nat),
{
    let ghost c = *conn;
    let ghost dp = data.path@;
    let ghost n = conn.names.len();
    let path = copy_push(&data.path, b);
    let v = convert_amount(data.cumulative_rate, rate);
    let child = RateOptimData { path, cumulative_rate: v };
    proof {
        reveal(stack_valid);
        assert(valid_ipath(c, s, dp.push(b))) by {
            assert forall|i: int| 0 <= i < dp.push(b).len() implies #[trigger] dp.push(b)[i] < n by {
                if i < dp.len() {
                    assert(dp[i] < n);
                }
            }
            assert forall|i: int|
                0 <= i < dp.push(b).len() - 1 implies c.step(#[trigger] dp.push(b)[i], dp.push(b)[i + 1]) by {
                if i < dp.len() - 1 {
                    assert(c.step(dp[i], dp[i + 1]));
                }
            }
        }
        lemma_ipath_len(c, s, dp.push(b));
        lemma_ival_push(edges, c, dp, b);
        lemma_stack_weight_push(n as nat, to_explore@, child);
    }
    let ghost st_k = to_explore@;
    to_explore.push(child);
    proof {
        reveal(stack_valid);
        assert forall|i: int|
            0 <= i < to_explore@.len() implies valid_ipath(c, s, (#[trigger] to_explore@[i]).path@)
                && to_explore@[i].cumulative_rate == ival(edges, c, to_explore@[i].path@) by {
            if i < st_k.len() {
                assert(to_explore@[i] == st_k[i]);
            }
        }
    }
}

/// Pushes onto the stack each one-step extension of `data` by an asset that
/// it does not hold yet.
fn expand(
    trading_pairs: &Vec<TradingPair>,
    conn: &Connections,
    rate_map: &Vec<Vec<Rate>>,
    s: usize,
    data: &RateOptimData,
    to_explore: &mut Vec<RateOptimData>,
)
    requires
        search_env(trading_pairs@, *conn, rate_map@),
        valid_ipath(*conn, s, data.path@),
        data.cumulative_rate == ival(trading_pairs@, *conn, data.path@),
        stack_valid(trading_pairs@, *conn, s, old(to_explore)@),
    ensures
        final(to_explore)@.len() >= old(to_explore)@.len(),
        forall|i: int| 0 <= i < old(to_explore)@.len() ==> final(to_explore)@[i] == old(to_explore)@[i],
        stack_valid(trading_pairs@, *conn, s, final(to_explore)@),
        forall|b: usize|
            b < conn.names.len() && #[trigger] conn.step(data.path@.last(), b) && !data.path@.contains(b)
                ==> in_stack(final(to_explore)@, data.path@.push(b)),
        final(to_explore)@.len() - old(to_explore)@.len() <= conn.names.len(),
        final(to_explore)@.len() > old(to_explore)@.len() ==> data.path@.len() < conn.names.len(),
        stack_weight(conn.names@.len(), final(to_explore)@) == stack_weight(conn.names@.len(), old(to_explore)@)
            + (final(to_explore)@.len() - old(to_explore)@.len()) * w_of(
            conn.names@.len(),
            (conn.names.len() - data.path@.len() - 1) as nat,
        ),
{
    let ghost edges = trading_pairs@;
    let ghost c = *conn;
    let ghost st1 = to_explore@;
    let ghost dp = data.path@;
    let ghost n = conn.names.len();
    let ghost len = dp.len();
    let a = data.path[data.path.len() - 1];
    proof {
        reveal(search_env);
        assert(a < n);
    }
    let row = &conn.next[a];
    let rates = &rate_map[a];
    proof {
        reveal(search_env);
        assert(rates@.len() == row@.len());
        assert(forall|j: int| 0 <= j < row@.len() ==> #[trigger] row@[j] < n);
        assert forall|j: int| 0 <= j < row@.len() implies (#[trigger] rates@[j]).num > 0 && rates@[j] == hop_rate(
            edges,
            c.name(a as int),
            c.name(row@[j] as int),
        ) by {
            lemma_hop_rate_valid(edges, c.name(a as int), c.name(row@[j] as int));
        }
        let t = Seq::new(n as nat, |i: int| i as usize);
        assert forall|i: int| 0 <= i < row@.len() implies t.contains(#[trigger] row@[i]) by {
            assert(t[row@[i] as int] == row@[i]);
        }
        lemma_distinct_within(row@, t);
    }
    let mut k: usize = 0;
    while k < row.len()
        invariant
            edges == trading_pairs@,
            c == *conn,
            n == conn.names.len(),
            a < n,
            row == conn.next@[a as int],
            rates@.len() == row@.len(),
            forall|j: int| 0 <= j < row@.len() ==> #[trigger] row@[j] < n,
            forall|j: int|
                0 <= j < row@.len() ==> (#[trigger] rates@[j]).num > 0 && rates@[j] == hop_rate(
                    edges,
                    c.name(a as int),
                    c.name(row@[j] as int),
                ),
            row.len() <= n,
            0 <= k <= row.len(),
            dp == data.path@,
            len == dp.len(),
            valid_ipath(c, s, dp),
            dp.last() == a,
            data.cumulative_rate == ival(edges, c, dp),
            to_explore.len() >= st1.len(),
            to_explore.len() - st1.len() <= k,
            to_explore.len() > st1.len() ==> len < n,
            forall|i: int| 0 <= i < st1.len() ==> to_explore@[i] == st1[i],
            stack_valid(edges, c, s, to_explore@),
            forall|j: int|
                0 <= j < k && !dp.contains(#[trigger] row@[j]) ==> in_stack(to_explore@, dp.push(row@[j])),
            stack_weight(n as nat, to_explore@) == stack_weight(n as nat, st1) + (to_explore.len() - st1.len())
                * w_of(n as nat, (n - len - 1) as nat),
        decreases row.len() - k,
    {
        let b = row[k];
        let ghost st_k = to_explore@;
        if !contains_index(&data.path, b) {
            push_child(Ghost(edges), conn, s, data, b, rates[k], to_explore);
            proof {
                let cnt = (to_explore.len() - st1.len()) as int;
                let w = w_of(n as nat, (n - len - 1) as nat) as int;
                assert((cnt - 1) * w + w == cnt * w) by (nonlinear_arith);
                assert(to_explore@[to_explore.len() - 1].path@ == dp.push(b));
            }
        }
        proof {
            assert forall|j: int|
                0 <= j < k + 1 && !dp.contains(#[trigger] row@[j]) implies in_stack(to_explore@, dp.push(row@[j])) by {
                if j < k {
                    let t = choose|t: int| 0 <= t < st_k.len() && (#[trigger] st_k[t]).path@ == dp.push(row@[j]);
                    assert(to_explore@[t] == st_k[t]);
                } else {
                    assert(to_explore@[to_explore.len() - 1].path@ == dp.push(row@[j]));
                }
            }
        }
        k = k + 1;
    }
    proof {
        assert forall|b: usize|
            b < n && #[trigger] c.step(dp.last(), b) && !dp.contains(b) implies in_stack(to_explore@, dp.push(b)) by {
            let j = choose|j: int| 0 <= j < row@.len() && row@[j] == b;
            assert(!dp.contains(row@[j]));
        }
    }
}

/// The best value over simple paths from `s` to `e`, and a path that gives it.
pub(crate) fn search(
    trading_pairs: &Vec<TradingPair>,
    conn: &Connections,
    rate_map: &Vec<Vec<Rate>>,
    s: usize,
    e: usize,
) -> (r: Option<RateOptimData>)
    requires
        valid_rates(trading_pairs@),
        conn.wf_for(trading_pairs@),
        rates_for(trading_pairs@, *conn, rate_map@),
        s < conn.names.len(),
        e < conn.names.len(),
    ensures
        match r {
            Some(d) => {
                &&& valid_ipath(*conn, s, d.path@)
                &&& d.path@.last() == e
                &&& d.cumulative_rate == ival(trading_pairs@, *conn, d.path@)
                &&& forall|q: Seq<usize>|
                    #[trigger] valid_ipath(*conn, s, q) && q.last() == e ==> ival(trading_pairs@, *conn, q)
                        <= d.cumulative_rate && (ival(trading_pairs@, *conn, q) == d.cumulative_rate
                        ==> d.path@.len() <= q.len())
            },
            None => forall|q: Seq<usize>| #[trigger] valid_ipath(*conn, s, q) ==> q.last() != e,
        },
{
    let ghost edges = trading_pairs@;
    let ghost c = *conn;
    let n = conn.names.len();
    let mut memo: Vec<Option<RateOptimData>> = Vec::new();
    let mut i: usize = 0;
    while i < n
        invariant
            0 <= i <= n,
            memo.len() == i,
            forall|j: int| 0 <= j < i ==> (#[trigger] memo@[j]).is_none(),
        decreases n - i,
    {
        memo.push(None);
        i = i + 1;
    }
    let mut start_path: Vec<usize> = Vec::new();
    start_path.push(s);
    let mut to_explore: Vec<RateOptimData> = Vec::new();
    to_explore.push(RateOptimData { path: start_path, cumulative_rate: UNIT });
    let ghost mut expanded: Set<Seq<usize>> = Set::empty();
    let ghost mut pruned: Set<Seq<usize>> = Set::empty();
    proof {
        assert(to_explore@[0].path@ =~= seq![s]);
        lemma_search_start(edges, c, s, memo@, to_explore@);
        reveal(search_env);
    }
    while to_explore.len() > 0
        invariant
            edges == trading_pairs@,
            c == *conn,
            n == conn.names.len(),
            search_env(edges, c, rate_map@),
            s < n,
            memo.len() == n,
            search_inv(edges, c, s, memo@, to_explore@, expanded, pruned),
        decreases stack_weight(n as nat, to_explore@),
    {
        let ghost st0 = to_explore@;
        let data = to_explore.pop().unwrap();
        let ghost st1 = to_explore@;
        proof {
            assert(st0 =~= st1.push(data));
            lemma_stack_weight_push(n as nat, st1, data);
            lemma_pop(edges, c, s, memo@, st0, st1, data, expanded, pruned);
            lemma_ipath_len(c, s, data.path@);
        }
        let ghost dp = data.path@;
        let ghost len = dp.len();
        let a = data.path[data.path.len() - 1];
        let dominated = match &memo[a] {
            Some(m) => m.cumulative_rate >= data.cumulative_rate && is_subset(&m.path, &data.path),
            None => false,
        };
        if dominated {
            proof {
                lemma_prune_step(edges, c, s, memo@, st0, st1, data, expanded, pruned);
                pruned = pruned.insert(dp);
                lemma_w_pos(n as nat, (n - len) as nat);
            }
        } else {
            expand(trading_pairs, conn, rate_map, s, &data, &mut to_explore);
            let replace = match &memo[a] {
                None => true,
                Some(m) => m.cumulative_rate < data.cumulative_rate || (m.cumulative_rate == data.cumulative_rate
                    && data.path.len() < m.path.len()),
            };
            let ghost memo0 = memo@;
            if replace {
                memo.set(a, Some(data));
            }
            proof {
                lemma_expand_step(edges, c, s, memo0, memo@, st0, st1, to_explore@, data, expanded, pruned);
                expanded = expanded.insert(dp);
                let cnt = (to_explore.len() - st1.len()) as int;
                if cnt > 0 {
                    let w = w_of(n as nat, (n - len - 1) as nat) as int;
                    assert(cnt * w <= n * w) by (nonlinear_arith)
                        requires
                            cnt <= n,
                            w >= 0,
                    ;
                    let j = (n - len) as nat;
                    assert(j > 0);
                    assert((j - 1) as nat == (n - len - 1) as nat);
                    lemma_w_unfold(n as nat, j);
                } else {
                    let w = w_of(n as nat, (n - len - 1) as nat) as int;
                    assert(cnt == 0);
                    assert(cnt * w == 0) by (nonlinear_arith)
                        requires
                            cnt == 0,
                    ;
                }
            }
        }
    }
    proof {
        reveal(search_env);
        lemma_search_end(edges, c, s, e, memo@, to_explore@, expanded, pruned);
    }
    memo.remove(e)
}

} // verus!
