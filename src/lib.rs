//! Conversion paths through a market of trading pairs.
//!
//! A trading pair trades a base asset into a quote asset at a rate, for at
//! most a capacity of base. Rates are exact positive fractions
//! ([`pair::Rate`]); quantities are whole units of the smallest amount the
//! caller chooses to count in. Trading `x` at rate `num / den` yields
//! `x * den / num`, rounded down.
//!
//! - [`validate`]: checks a pair list against a start and a final asset.
//! - [`graph`]: connected components of the pair list taken as undirected.
//! - [`connections`]: numbered assets, one-trade steps and the lowest rate of
//!   each step.
//! - [`rate`]: the best-rate simple path, trade sizes ignored.
//! - [`search`]: the memoized exhaustive search behind it.
//! - [`net`]: the greedy, capacity-bounded allocation of a quantity.
pub mod pair;
pub mod seqs;
pub mod graph;
pub mod validate;
pub mod connections;
pub mod rate;
pub mod search;
pub mod net;
