//! Trading pairs, exact rates and the conversion of quantities.
use vstd::prelude::*;

verus! {

/// The value of one whole unit in the fixed-point scale of cumulative rates:
/// a path value of `UNIT` means one unit of the start asset buys one unit of
/// the end asset.
pub const UNIT: u64 = 1_000_000_000;

/// A positive rational conversion factor `num / den`.
///
/// Trading `x` units of the base asset along a pair with this rate yields
/// `x / rate = x * den / num` units of the quote asset, rounded down.
#[derive(Clone, Copy, Debug, PartialEq, Eq, Structural)]
pub struct Rate {
    pub num: u64,
    pub den: u64,
}

/// The product of two `u64` values fits in a `u128`.
pub proof fn lemma_mul_fits(a: u64, b: u64)
    ensures
        0 <= (a as int) * (b as int) <= u128::MAX as int,
{
    assert(0 <= (a as int) * (b as int) <= (u64::MAX as int) * (u64::MAX as int)) by (nonlinear_arith)
        requires
            0 <= a <= u64::MAX,
            0 <= b <= u64::MAX,
    ;
}

impl Rate {
    /// Positive and finite.
    pub open spec fn valid(self) -> bool {
        self.num > 0 && self.den > 0
    }

    /// `self < other` as rational numbers.
    pub open spec fn less(self, other: Rate) -> bool {
        (self.num as int) * (other.den as int) < (other.num as int) * (self.den as int)
    }

    pub fn is_less(&self, other: &Rate) -> (r: bool)
        ensures
            r == self.less(*other),
    {
        proof {
            lemma_mul_fits(self.num, other.den);
            lemma_mul_fits(other.num, self.den);
        }
        let a: u128 = (self.num as u128) * (other.den as u128);
        let b: u128 = (other.num as u128) * (self.den as u128);
        a < b
    }
}

/// A rate below one that is at most a third is below the third.
pub proof fn lemma_less_trans(x: Rate, y: Rate, z: Rate)
    requires
        x.valid(),
        y.valid(),
        z.valid(),
        x.less(y),
        !z.less(y),
    ensures
        x.less(z),
{
    let (xn, xd, yn, yd, zn, zd) = (x.num as int, x.den as int, y.num as int, y.den as int, z.num as int, z.den as int);
    assert(xn * zd < zn * xd) by (nonlinear_arith)
        requires
            xn * yd < yn * xd,
            yn * zd <= zn * yd,
            xd > 0,
            yd > 0,
            zd > 0,
            xn >= 0,
            yn >= 0,
            zn >= 0,
    ;
}

/// Quantity of quote asset obtained for `amount` units of base asset at `rate`,
/// rounded down and saturated at `u64::MAX`.
pub open spec fn convert(amount: u64, rate: Rate) -> u64 {
    let q = (amount as int) * (rate.den as int) / (rate.num as int);
    if q > u64::MAX as int {
        u64::MAX
    } else {
        q as u64
    }
}

pub fn convert_amount(amount: u64, rate: Rate) -> (r: u64)
    requires
        rate.num > 0,
    ensures
        r == convert(amount, rate),
{
    proof {
        lemma_mul_fits(amount, rate.den);
    }
    let p: u128 = (amount as u128) * (rate.den as u128);
    let q: u128 = p / (rate.num as u128);
    if q > u64::MAX as u128 {
        u64::MAX
    } else {
        q as u64
    }
}

pub proof fn lemma_convert_monotone(a: u64, b: u64, rate: Rate)
    requires
        rate.num > 0,
        a <= b,
    ensures
        convert(a, rate) <= convert(b, rate),
{
    let x = (a as int) * (rate.den as int);
    let y = (b as int) * (rate.den as int);
    assert(x <= y) by (nonlinear_arith)
        requires
            a <= b,
            x == (a as int) * (rate.den as int),
            y == (b as int) * (rate.den as int),
            rate.den >= 0,
    ;
    vstd::arithmetic::div_mod::lemma_div_is_ordered(x, y, rate.num as int);
}

/// One directed trading pair (an edge of the market graph): `base_asset` is
/// traded into `quote_asset` at `rate`, for at most `capacity` units of base.
#[derive(Clone, Debug)]
pub struct TradingPair {
    pub exchange: String,
    pub quote_asset: String,
    pub base_asset: String,
    pub rate: Rate,
    pub capacity: u64,
}

/// The pair trades from or into `x`.
pub open spec fn mentions(e: TradingPair, x: Seq<char>) -> bool {
    e.base_asset@ == x || e.quote_asset@ == x
}

/// Every rate of the list is positive and finite.
pub open spec fn valid_rates(edges: Seq<TradingPair>) -> bool {
    forall|i: int| 0 <= i < edges.len() ==> (#[trigger] edges[i]).rate.valid()
}

/// Some pair of the list trades `b` into `q`.
pub open spec fn is_edge(edges: Seq<TradingPair>, b: Seq<char>, q: Seq<char>) -> bool {
    exists|i: int|
        0 <= i < edges.len() && (#[trigger] edges[i]).base_asset@ == b && edges[i].quote_asset@ == q
}

/// The lowest rate among the first `n` pairs that trade `b` into `q` (the
/// earliest one on ties), or `None` when there is no such pair.
pub open spec fn best_rate(edges: Seq<TradingPair>, n: int, b: Seq<char>, q: Seq<char>) -> Option<Rate>
    decreases n,
{
    if n <= 0 {
        None
    } else {
        let prev = best_rate(edges, n - 1, b, q);
        let e = edges[n - 1];
        if e.base_asset@ == b && e.quote_asset@ == q {
            match prev {
                Some(r) => if e.rate.less(r) {
                    Some(e.rate)
                } else {
                    Some(r)
                },
                None => Some(e.rate),
            }
        } else {
            prev
        }
    }
}

/// The rate used to value a hop from `b` to `q`: the lowest among all pairs.
pub open spec fn hop_rate(edges: Seq<TradingPair>, b: Seq<char>, q: Seq<char>) -> Rate {
    match best_rate(edges, edges.len() as int, b, q) {
        Some(r) => r,
        None => Rate { num: 1, den: 1 },
    }
}

pub proof fn lemma_best_rate(edges: Seq<TradingPair>, n: int, b: Seq<char>, q: Seq<char>)
    requires
        0 <= n <= edges.len(),
        valid_rates(edges),
    ensures
        best_rate(edges, n, b, q).is_some() <==> exists|i: int|
            0 <= i < n && (#[trigger] edges[i]).base_asset@ == b && edges[i].quote_asset@ == q,
        best_rate(edges, n, b, q).is_some() ==> best_rate(edges, n, b, q).unwrap().valid(),
    decreases n,
{
    if n > 0 {
        lemma_best_rate(edges, n - 1, b, q);
        if best_rate(edges, n - 1, b, q).is_some() {
            let i = choose|i: int|
                0 <= i < n - 1 && (#[trigger] edges[i]).base_asset@ == b && edges[i].quote_asset@ == q;
            assert(0 <= i < n && edges[i].base_asset@ == b && edges[i].quote_asset@ == q);
        }
        let e = edges[n - 1];
        assert(e.rate.valid());
    }
}

pub proof fn lemma_hop_rate_valid(edges: Seq<TradingPair>, b: Seq<char>, q: Seq<char>)
    requires
        valid_rates(edges),
    ensures
        hop_rate(edges, b, q).valid(),
{
    lemma_best_rate(edges, edges.len() as int, b, q);
}

} // verus!
