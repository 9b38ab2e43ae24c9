use cryptoptim::graph::{find_connected_component, find_connected_components};
use cryptoptim::net::{best_pair_index, do_optimize_net, do_optimize_net_with, get_best_pair, CapacityPolicy, Trade};
use cryptoptim::pair::{convert_amount, Rate, TradingPair, UNIT};
use cryptoptim::rate::{do_optimize_rate, OptimError};
use cryptoptim::search::is_subset;
use cryptoptim::validate::{trading_pairs_reversible, validate_input, ValidationError};

/// Quantities in these tests count millionths of a unit.
const Q: u64 = 1_000_000;

fn pair(exchange: &str, base: &str, quote: &str, rate: Rate, capacity: u64) -> TradingPair {
    TradingPair {
        exchange: exchange.to_string(),
        quote_asset: quote.to_string(),
        base_asset: base.to_string(),
        rate,
        capacity,
    }
}

/// `n1` to `n2` at `num / den`, and back at the reciprocal, on exchange "1".
fn make_trading_pair_pair(n1: String, n2: String, num: u64, den: u64, capacity: u64) -> Vec<TradingPair> {
    vec![
        pair("1", &n1, &n2, Rate { num, den }, capacity),
        pair("1", &n2, &n1, Rate { num: den, den: num }, capacity),
    ]
}

fn s(x: &str) -> String {
    x.to_string()
}

fn strings(xs: &[&str]) -> Vec<String> {
    xs.iter().map(|x| x.to_string()).collect()
}

fn sorted(mut v: Vec<String>) -> Vec<String> {
    v.sort();
    v
}

fn check_trades_within_capacity(tps: &[TradingPair], trades: &[Trade]) {
    for (i, t) in trades.iter().enumerate() {
        let p = tps
            .iter()
            .find(|p| p.exchange == t.exchange && p.base_asset == t.from && p.quote_asset == t.to)
            .expect("every trade runs on a pair of the list");
        assert!(t.from_amount <= p.capacity);
        assert_eq!(t.to_amount, convert_amount(t.from_amount, p.rate));
        for u in &trades[i + 1..] {
            assert!(!(u.exchange == t.exchange && u.from == t.from && u.to == t.to));
        }
    }
}

#[test]
fn test_cc_simple() {
    let tp1 = make_trading_pair_pair(s("A"), s("B"), 1, 1, Q);
    let tp2 = make_trading_pair_pair(s("B"), s("C"), 1, 1, Q);
    let tp3 = make_trading_pair_pair(s("C"), s("D"), 1, 1, Q);
    let tps: Vec<TradingPair> = tp1.into_iter().chain(tp2.into_iter().chain(tp3.into_iter())).collect();
    let ccs = find_connected_components(&tps);
    println!("{:?}", ccs);
    assert_eq!(ccs.len(), 1);
    assert_eq!(ccs[0].len(), 4);
}

#[test]
fn test_cc_two_components() {
    let tp1 = make_trading_pair_pair(s("A"), s("B"), 1, 1, Q);
    let tp2 = make_trading_pair_pair(s("B"), s("C"), 1, 1, Q);
    let tp3 = make_trading_pair_pair(s("D"), s("E"), 1, 1, Q);
    let tps: Vec<TradingPair> = tp1.into_iter().chain(tp2.into_iter().chain(tp3.into_iter())).collect();
    let ccs = {
        let mut ccs = find_connected_components(&tps);
        ccs.sort_by_key(|x| x.len());
        ccs
    };
    println!("{:?}", ccs);
    assert_eq!(ccs.len(), 2);
    assert_eq!(ccs[0].len(), 2);
    assert_eq!(ccs[1].len(), 3);
}

#[test]
fn test_reversive_components() {
    let tp1 = make_trading_pair_pair(s("A"), s("B"), 1, 1, Q);
    let tp2 = make_trading_pair_pair(s("B"), s("C"), 1, 1, Q);
    let mut tps: Vec<TradingPair> = tp1.into_iter().chain(tp2.into_iter()).collect();

    assert!(trading_pairs_reversible(&tps));

    tps.push(pair("1", "E", "D", Rate { num: 1, den: 1 }, Q));
    assert!(!trading_pairs_reversible(&tps));
}

#[test]
fn test_rate_optim() {
    let tp1 = make_trading_pair_pair(s("A"), s("B"), 1, 2, Q);
    let tp2 = make_trading_pair_pair(s("B"), s("C"), 1, 10, Q);
    let tp3 = make_trading_pair_pair(s("C"), s("D"), 1, 5, Q);
    let mut tps: Vec<TradingPair> = tp1.into_iter().chain(tp2.into_iter().chain(tp3.into_iter())).collect();

    let (rate, path) = do_optimize_rate(&tps, &s("A"), &s("B")).unwrap();
    assert_eq!(rate, 2 * UNIT);
    assert_eq!(path, strings(&["A", "B"]));

    let (rate, path) = do_optimize_rate(&tps, &s("A"), &s("D")).unwrap();
    assert_eq!(rate, 2 * 10 * 5 * UNIT);
    assert_eq!(path, strings(&["A", "B", "C", "D"]));

    // 0.5 * 0.1 * 0.2 - 0.001 = 0.009
    let mut tp4 = make_trading_pair_pair(s("A"), s("E"), 1, 1, Q);
    let mut tp5 = make_trading_pair_pair(s("E"), s("D"), 9, 1000, Q);
    tps.append(&mut tp4);
    tps.append(&mut tp5);
    let (rate, path) = do_optimize_rate(&tps, &s("A"), &s("D")).unwrap();
    assert_eq!(rate, 111_111_111_111);
    assert_eq!(path, strings(&["A", "E", "D"]));
}

#[test]
fn test_net_optim_simple() {
    let tp1 = make_trading_pair_pair(s("A"), s("B"), 1, 2, Q);
    let tp2 = make_trading_pair_pair(s("B"), s("C"), 1, 10, 2 * Q);

    let tps: Vec<TradingPair> = tp1.into_iter().chain(tp2.into_iter()).collect();
    let (net, _) = do_optimize_net(&tps, &s("A"), Q, &s("B"));
    assert_eq!(net, 2 * Q);
    let (net, _) = do_optimize_net(&tps, &s("A"), Q, &s("C"));
    assert_eq!(net, 20 * Q);
    let (net, _) = do_optimize_net(&tps, &s("A"), Q / 2, &s("C"));
    assert_eq!(net, 10 * Q);
    let (net, _) = do_optimize_net(&tps, &s("A"), 2 * Q, &s("C"));
    assert_eq!(net, 20 * Q);
}

#[test]
fn test_net_optim() {
    let tp1 = make_trading_pair_pair(s("A"), s("B"), 1, 2, Q);
    let tp2 = make_trading_pair_pair(s("A"), s("C"), 1, 10, Q);
    let tp3 = make_trading_pair_pair(s("E"), s("B"), 1, 1, 100 * Q);
    let tp4 = make_trading_pair_pair(s("E"), s("C"), 1, 1, 100 * Q);
    let tps: Vec<TradingPair> =
        tp1.into_iter().chain(tp2.into_iter().chain(tp3.into_iter().chain(tp4.into_iter()))).collect();
    let (net, _) = do_optimize_net(&tps, &s("A"), Q, &s("E"));
    assert_eq!(net, 10 * Q);
    let (net, _) = do_optimize_net(&tps, &s("A"), 2 * Q, &s("E"));
    assert_eq!(net, 12 * Q);
    let (net, _) = do_optimize_net(&tps, &s("A"), 10 * Q, &s("E"));
    assert_eq!(net, 12 * Q);
}

fn scenario_pairs() -> Vec<TradingPair> {
    vec![
        pair("1", "A", "B", Rate { num: 1, den: 2 }, Q),
        pair("1", "B", "A", Rate { num: 2, den: 1 }, Q),
        pair("1", "B", "C", Rate { num: 1, den: 10 }, 2 * Q),
        pair("1", "C", "B", Rate { num: 10, den: 1 }, 2 * Q),
    ]
}

#[test]
fn net_one_unit_goes_through_one_trade_pair() {
    let tps = scenario_pairs();
    let (net, trades) = do_optimize_net(&tps, &s("A"), Q, &s("C"));
    assert_eq!(net, 20 * Q);
    assert_eq!(trades.len(), 2);
    assert_eq!((trades[0].from.as_str(), trades[0].to.as_str()), ("A", "B"));
    assert_eq!((trades[0].from_amount, trades[0].to_amount), (Q, 2 * Q));
    assert_eq!((trades[1].from.as_str(), trades[1].to.as_str()), ("B", "C"));
    assert_eq!((trades[1].from_amount, trades[1].to_amount), (2 * Q, 20 * Q));
    check_trades_within_capacity(&tps, &trades);
}

#[test]
fn net_scales_linearly_under_capacity() {
    let tps = scenario_pairs();
    let (net, trades) = do_optimize_net(&tps, &s("A"), Q / 2, &s("C"));
    assert_eq!(net, 10 * Q);
    assert_eq!(trades.len(), 2);
    check_trades_within_capacity(&tps, &trades);
}

#[test]
fn net_is_capped_by_capacity_and_remainder_is_abandoned() {
    let tps = scenario_pairs();
    let (net, trades) = do_optimize_net(&tps, &s("A"), 2 * Q, &s("C"));
    assert_eq!(net, 20 * Q);
    check_trades_within_capacity(&tps, &trades);
    let moved_from_a: u64 = trades.iter().filter(|t| t.from == "A").map(|t| t.from_amount).sum();
    assert_eq!(moved_from_a, Q);
}

#[test]
fn net_start_is_final_asset() {
    let tps = scenario_pairs();
    let (net, trades) = do_optimize_net(&tps, &s("C"), 7, &s("C"));
    assert_eq!(net, 7);
    assert!(trades.is_empty());
}

#[test]
fn net_zero_quantity_trades_nothing() {
    let tps = scenario_pairs();
    let (net, trades) = do_optimize_net(&tps, &s("A"), 0, &s("C"));
    assert_eq!(net, 0);
    assert!(trades.is_empty());
}

#[test]
fn net_unreachable_final_asset_delivers_nothing() {
    let mut tps = scenario_pairs();
    tps.append(&mut make_trading_pair_pair(s("X"), s("Y"), 1, 1, Q));
    let (net, trades) = do_optimize_net(&tps, &s("A"), Q, &s("Y"));
    assert_eq!(net, 0);
    assert!(trades.is_empty());
}

#[test]
fn net_uses_each_triple_once() {
    let tps = vec![
        pair("x", "A", "B", Rate { num: 1, den: 1 }, Q),
        pair("x", "A", "B", Rate { num: 1, den: 1 }, Q),
        pair("y", "A", "B", Rate { num: 2, den: 1 }, 3 * Q),
        pair("x", "B", "A", Rate { num: 1, den: 1 }, Q),
    ];
    let (net, trades) = do_optimize_net(&tps, &s("A"), 5 * Q, &s("B"));
    // exchange x first (lower rate), once, then y for the rest it takes
    assert_eq!(trades.len(), 2);
    assert_eq!(trades[0].exchange, "x");
    assert_eq!(trades[1].exchange, "y");
    assert_eq!(net, Q + 3 * Q / 2);
    check_trades_within_capacity(&tps, &trades);
}

#[test]
fn rate_chain_composes_reciprocals() {
    let mut tps = make_trading_pair_pair(s("A"), s("B"), 1, 4, Q);
    tps.append(&mut make_trading_pair_pair(s("B"), s("C"), 2, 1, Q));
    tps.append(&mut make_trading_pair_pair(s("C"), s("D"), 1, 3, Q));
    let (rate, path) = do_optimize_rate(&tps, &s("A"), &s("D")).unwrap();
    assert_eq!(path, strings(&["A", "B", "C", "D"]));
    assert_eq!(rate, 4 * UNIT / 2 * 3);
}

#[test]
fn rate_prefers_better_detour() {
    let mut tps = make_trading_pair_pair(s("A"), s("D"), 1, 2, Q);
    tps.append(&mut make_trading_pair_pair(s("A"), s("B"), 1, 2, Q));
    tps.append(&mut make_trading_pair_pair(s("B"), s("D"), 1, 2, Q));
    let (rate, path) = do_optimize_rate(&tps, &s("A"), &s("D")).unwrap();
    assert_eq!(path, strings(&["A", "B", "D"]));
    assert_eq!(rate, 4 * UNIT);
}

#[test]
fn rate_uses_lowest_parallel_rate() {
    let tps = vec![
        pair("x", "A", "B", Rate { num: 1, den: 2 }, Q),
        pair("y", "A", "B", Rate { num: 1, den: 4 }, Q),
        pair("x", "B", "A", Rate { num: 2, den: 1 }, Q),
    ];
    let (rate, _) = do_optimize_rate(&tps, &s("A"), &s("B")).unwrap();
    assert_eq!(rate, 4 * UNIT);
    let best = get_best_pair(&tps, &s("A"), &s("B")).unwrap();
    assert_eq!(best.exchange, "y");
    assert!(get_best_pair(&tps, &s("B"), &s("C")).is_none());
}

#[test]
fn rate_same_asset_is_unit() {
    let tps = scenario_pairs();
    let (rate, path) = do_optimize_rate(&tps, &s("B"), &s("B")).unwrap();
    assert_eq!(rate, UNIT);
    assert_eq!(path, strings(&["B"]));
    let (rate, path) = do_optimize_rate(&tps, &s("Z"), &s("Z")).unwrap();
    assert_eq!(rate, UNIT);
    assert_eq!(path, strings(&["Z"]));
}

#[test]
fn rate_lookup_failure_when_unreachable() {
    let mut tps = scenario_pairs();
    tps.append(&mut make_trading_pair_pair(s("X"), s("Y"), 1, 1, Q));
    match do_optimize_rate(&tps, &s("A"), &s("Y")) {
        Err(OptimError::LookupFailure(x)) => assert_eq!(x, "Y"),
        Ok(_) => panic!("no path leads to Y"),
    }
    assert!(matches!(do_optimize_rate(&tps, &s("A"), &s("Q")), Err(OptimError::LookupFailure(_))));
}

#[test]
fn components_partition_assets() {
    let mut tps = make_trading_pair_pair(s("A"), s("B"), 1, 1, Q);
    tps.append(&mut make_trading_pair_pair(s("C"), s("D"), 1, 1, Q));
    tps.append(&mut make_trading_pair_pair(s("D"), s("E"), 1, 1, Q));
    tps.push(pair("1", "F", "G", Rate { num: 1, den: 1 }, Q));
    let mut ccs: Vec<Vec<String>> = find_connected_components(&tps).into_iter().map(sorted).collect();
    ccs.sort();
    assert_eq!(ccs, vec![strings(&["A", "B"]), strings(&["C", "D", "E"]), strings(&["F", "G"])]);
    assert_eq!(sorted(find_connected_component(&tps, &s("E"))), strings(&["C", "D", "E"]));
    assert_eq!(find_connected_component(&tps, &s("Q")), strings(&["Q"]));
    assert!(find_connected_components(&Vec::new()).is_empty());
}

#[test]
fn validation_accepts_connected_input() {
    let mut tps = make_trading_pair_pair(s("A"), s("B"), 1, 1, Q);
    tps.append(&mut make_trading_pair_pair(s("B"), s("C"), 1, 1, Q));
    assert!(validate_input(&tps, "A", "C").is_ok());
}

#[test]
fn validation_errors() {
    assert!(matches!(validate_input(&Vec::new(), "A", "B"), Err(ValidationError::EmptyInput)));

    let mut tps = make_trading_pair_pair(s("A"), s("B"), 1, 1, Q);
    tps.push(pair("k", "C", "C", Rate { num: 1, den: 1 }, Q));
    match validate_input(&tps, "A", "B") {
        Err(ValidationError::SelfPair(a, x)) => assert_eq!((a.as_str(), x.as_str()), ("C", "k")),
        other => panic!("{:?}", other),
    }

    let mut tps = make_trading_pair_pair(s("A"), s("B"), 1, 1, Q);
    tps.push(pair("1", "B", "C", Rate { num: 1, den: 1 }, Q));
    match validate_input(&tps, "A", "B") {
        Err(ValidationError::NonReversiblePair(b, q)) => assert_eq!((b.as_str(), q.as_str()), ("B", "C")),
        other => panic!("{:?}", other),
    }

    let mut tps = make_trading_pair_pair(s("A"), s("B"), 1, 1, Q);
    tps.append(&mut make_trading_pair_pair(s("C"), s("D"), 1, 1, Q));
    match validate_input(&tps, "Z", "B") {
        Err(ValidationError::UnknownAsset(a)) => assert_eq!(a, "Z"),
        other => panic!("{:?}", other),
    }
    match validate_input(&tps, "A", "Z") {
        Err(ValidationError::UnknownAsset(a)) => assert_eq!(a, "Z"),
        other => panic!("{:?}", other),
    }
    match validate_input(&tps, "A", "D") {
        Err(ValidationError::Unreachable(a, b)) => assert_eq!((a.as_str(), b.as_str()), ("A", "D")),
        other => panic!("{:?}", other),
    }
}

#[test]
fn conversion_rounds_down_and_saturates() {
    assert_eq!(convert_amount(10, Rate { num: 3, den: 1 }), 3);
    assert_eq!(convert_amount(10, Rate { num: 1, den: 3 }), 30);
    assert_eq!(convert_amount(7, Rate { num: 2, den: 5 }), 17);
    assert_eq!(convert_amount(u64::MAX, Rate { num: 1, den: 2 }), u64::MAX);
    assert_eq!(convert_amount(u64::MAX, Rate { num: 2, den: 1 }), u64::MAX / 2);
    assert!(Rate { num: 1, den: 3 }.is_less(&Rate { num: 1, den: 2 }));
    assert!(!Rate { num: 2, den: 4 }.is_less(&Rate { num: 1, den: 2 }));
}

#[test]
fn subset_of_paths() {
    assert!(is_subset(&vec![1, 3], &vec![3, 2, 1]));
    assert!(!is_subset(&vec![1, 4], &vec![3, 2, 1]));
    assert!(is_subset(&vec![], &vec![]));
}

/// Two quantities reach `A` by different routes and both want `A` to `C`.
fn two_routes_pairs() -> Vec<TradingPair> {
    let mut tps = make_trading_pair_pair(s("S"), s("A"), 1, 1, Q);
    tps.append(&mut make_trading_pair_pair(s("S"), s("Y"), 1, 1, 10 * Q));
    tps.append(&mut make_trading_pair_pair(s("Y"), s("A"), 1, 1, 10 * Q));
    tps.append(&mut make_trading_pair_pair(s("A"), s("C"), 1, 2, 10 * Q));
    tps
}

#[test]
fn net_retire_policy_abandons_at_used_pair() {
    let tps = two_routes_pairs();
    let (net, trades) = do_optimize_net(&tps, &s("S"), 2 * Q, &s("C"));
    assert_eq!(net, 2 * Q);
    let a_to_c = trades.iter().filter(|t| t.from == "A" && t.to == "C").count();
    assert_eq!(a_to_c, 1);
    check_trades_within_capacity(&tps, &trades);
    let (net2, trades2) = do_optimize_net_with(&tps, &s("S"), 2 * Q, &s("C"), CapacityPolicy::RetireAfterUse);
    assert_eq!(net2, net);
    assert_eq!(trades2.len(), trades.len());
}

#[test]
fn net_draw_down_policy_reuses_pair() {
    let tps = two_routes_pairs();
    let (net, trades) = do_optimize_net_with(&tps, &s("S"), 2 * Q, &s("C"), CapacityPolicy::DrawDown);
    assert_eq!(net, 4 * Q);
    let used: u64 = trades.iter().filter(|t| t.from == "A" && t.to == "C").map(|t| t.from_amount).sum();
    assert_eq!(used, 2 * Q);
    assert_eq!(trades.iter().filter(|t| t.from == "A" && t.to == "C").count(), 2);
}

#[test]
fn net_draw_down_respects_capacity() {
    let tps = scenario_pairs();
    let (net, trades) = do_optimize_net_with(&tps, &s("A"), 2 * Q, &s("C"), CapacityPolicy::DrawDown);
    assert_eq!(net, 20 * Q);
    let from_a: u64 = trades.iter().filter(|t| t.from == "A").map(|t| t.from_amount).sum();
    assert_eq!(from_a, Q);
}

#[test]
fn net_first_trade_follows_best_path() {
    let tp1 = make_trading_pair_pair(s("A"), s("B"), 1, 2, Q);
    let tp2 = make_trading_pair_pair(s("A"), s("C"), 1, 10, Q);
    let tp3 = make_trading_pair_pair(s("E"), s("B"), 1, 1, 100 * Q);
    let tp4 = make_trading_pair_pair(s("E"), s("C"), 1, 1, 100 * Q);
    let tps: Vec<TradingPair> =
        tp1.into_iter().chain(tp2.into_iter().chain(tp3.into_iter().chain(tp4.into_iter()))).collect();
    let (_, trades) = do_optimize_net(&tps, &s("A"), 3 * Q, &s("E"));
    assert_eq!((trades[0].from.as_str(), trades[0].to.as_str()), ("A", "C"));
    assert_eq!((trades[0].from_amount, trades[0].to_amount), (Q, 10 * Q));
    assert_eq!(best_pair_index(&tps, &s("A"), &s("C")), Some(2));
    assert_eq!(best_pair_index(&tps, &s("C"), &s("A")), Some(3));
    assert_eq!(best_pair_index(&tps, &s("B"), &s("C")), None);
}

#[test]
fn net_retires_only_traded_direction() {
    let tps = vec![
        pair("1", "A", "B", Rate { num: 1, den: 1 }, 2 * Q),
        pair("1", "B", "A", Rate { num: 1, den: 1 }, 2 * Q),
        pair("1", "B", "C", Rate { num: 1, den: 1 }, Q),
        pair("1", "C", "B", Rate { num: 1, den: 1 }, Q),
        pair("2", "A", "C", Rate { num: 2, den: 1 }, 10 * Q),
        pair("2", "C", "A", Rate { num: 1, den: 2 }, 10 * Q),
    ];
    let (net, trades) = do_optimize_net(&tps, &s("A"), 2 * Q, &s("C"));
    assert_eq!(net, 3 * Q / 2);
    check_trades_within_capacity(&tps, &trades);
    assert!(trades.iter().any(|t| t.from == "B" && t.to == "A" && t.from_amount == Q));
}

#[test]
fn net_remainder_without_route_is_abandoned() {
    let tp1 = make_trading_pair_pair(s("A"), s("B"), 1, 2, Q);
    let tp2 = make_trading_pair_pair(s("B"), s("C"), 1, 10, 2 * Q);
    let tps: Vec<TradingPair> = tp1.into_iter().chain(tp2.into_iter()).collect();
    let (net, trades) = do_optimize_net(&tps, &s("B"), 3 * Q, &s("C"));
    assert_eq!(net, 20 * Q);
    assert_eq!(trades.len(), 1);
    assert_eq!((trades[0].from.as_str(), trades[0].to.as_str(), trades[0].from_amount), ("B", "C", 2 * Q));
}

#[test]
fn rate_ties_go_to_shorter_path() {
    let mut tps = make_trading_pair_pair(s("A"), s("B"), 1, 2, Q);
    tps.append(&mut make_trading_pair_pair(s("B"), s("D"), 1, 2, Q));
    tps.append(&mut make_trading_pair_pair(s("A"), s("D"), 1, 4, Q));
    let (rate, path) = do_optimize_rate(&tps, &s("A"), &s("D")).unwrap();
    assert_eq!(rate, 4 * UNIT);
    assert_eq!(path, strings(&["A", "D"]));
}

#[test]
fn best_pair_is_first_on_ties() {
    let tps = vec![
        pair("x", "A", "B", Rate { num: 1, den: 2 }, Q),
        pair("y", "A", "B", Rate { num: 1, den: 4 }, Q),
        pair("z", "A", "B", Rate { num: 2, den: 8 }, Q),
        pair("x", "B", "A", Rate { num: 2, den: 1 }, Q),
    ];
    assert_eq!(best_pair_index(&tps, &s("A"), &s("B")), Some(1));
    assert_eq!(get_best_pair(&tps, &s("A"), &s("B")).unwrap().exchange, "y");
}

#[test]
fn rate_chain_without_reverse_pairs() {
    let tps = vec![
        pair("1", "C", "D", Rate { num: 1, den: 5 }, Q),
        pair("1", "A", "B", Rate { num: 1, den: 2 }, Q),
        pair("1", "B", "C", Rate { num: 1, den: 10 }, Q),
    ];
    let (rate, path) = do_optimize_rate(&tps, &s("A"), &s("D")).unwrap();
    assert_eq!(path, strings(&["A", "B", "C", "D"]));
    assert_eq!(rate, 100 * UNIT);
}
