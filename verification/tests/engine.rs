//! End-to-end tests of the allocation engine: loading and validation,
//! both rebalancing strategies, the action diff, and the display
//! projection.

use rebalancer::{load_portfolio, Asset, BuySell, Dec, EngineError, LoadError, Portfolio, SCALE};

fn asset(name: &str, price: u64, count: u64, alloc: u64) -> Asset {
    Asset {
        name: name.to_owned(),
        price: Dec::from_whole(price),
        count: Dec::from_whole(count),
        alloc: Dec::from_whole(alloc),
        value: Dec::zero(),
    }
}

fn example_portfolio(donotsell: bool) -> Portfolio {
    load_portfolio(
        vec![asset("USD", 1, 500, 50), asset("STK", 10, 0, 50)],
        donotsell,
    )
    .unwrap()
}

#[test]
fn load_computes_values_and_total() {
    let p = example_portfolio(false);
    assert_eq!(p.assets.len(), 2);
    assert_eq!(p.assets[0].value, Dec::from_whole(500));
    assert_eq!(p.assets[1].value, Dec::from_whole(0));
    assert_eq!(p.value, Dec::from_whole(500));
    assert!(!p.donotsell);
}

#[test]
fn load_accepts_only_sum_of_exactly_100() {
    let p = load_portfolio(vec![asset("USD", 1, 1, 60), asset("A", 2, 3, 40)], false);
    assert!(p.is_ok());

    let sum_99_9 = load_portfolio(
        vec![
            Asset {
                name: "USD".to_owned(),
                price: Dec::from_whole(1),
                count: Dec::from_whole(1),
                alloc: Dec::from_parts(599, 1).unwrap(),
                value: Dec::zero(),
            },
            asset("A", 2, 3, 40),
        ],
        false,
    );
    assert_eq!(
        sum_99_9.unwrap_err(),
        LoadError::InvalidAllocation(Dec::from_parts(999, 1).unwrap())
    );

    let sum_100_1 = load_portfolio(
        vec![
            Asset {
                name: "USD".to_owned(),
                price: Dec::from_whole(1),
                count: Dec::from_whole(1),
                alloc: Dec::from_parts(601, 1).unwrap(),
                value: Dec::zero(),
            },
            asset("A", 2, 3, 40),
        ],
        false,
    );
    assert_eq!(
        sum_100_1.unwrap_err(),
        LoadError::InvalidAllocation(Dec::from_parts(1001, 1).unwrap())
    );
}

#[test]
fn load_requires_a_currency_asset() {
    let p = load_portfolio(vec![asset("A", 1, 500, 50), asset("B", 10, 0, 50)], false);
    assert_eq!(p.unwrap_err(), LoadError::MissingCurrency);
}

#[test]
fn load_ignores_supplied_values() {
    let mut a = asset("USD", 2, 10, 100);
    a.value = Dec::from_whole(12345);
    let p = load_portfolio(vec![a], false).unwrap();
    assert_eq!(p.assets[0].value, Dec::from_whole(20));
    assert_eq!(p.value, Dec::from_whole(20));
}

#[test]
fn calculate_asset_values_derives_values_and_total() {
    let mut p = Portfolio {
        assets: vec![asset("USD", 1, 500, 50), asset("STK", 10, 3, 50)],
        donotsell: false,
        value: Dec::zero(),
    };
    p.calculate_asset_values();
    assert_eq!(p.assets[0].value, Dec::from_whole(500));
    assert_eq!(p.assets[1].value, Dec::from_whole(30));
    assert_eq!(p.value, Dec::from_whole(530));
}

#[test]
fn recalc_allocation_is_idempotent() {
    let mut p = example_portfolio(false);
    p.recalc_allocation();
    let first: Vec<Dec> = p.assets.iter().map(|a| a.alloc).collect();
    p.recalc_allocation();
    let second: Vec<Dec> = p.assets.iter().map(|a| a.alloc).collect();
    assert_eq!(first, second);
    assert_eq!(first, vec![Dec::from_whole(100), Dec::from_whole(0)]);
}

#[test]
fn full_rebalance_example() {
    let p = example_portfolio(false);
    let t = p.rebalance();
    assert_eq!(t.assets[0].name, "USD");
    assert_eq!(t.assets[0].count, Dec::from_whole(250));
    assert_eq!(t.assets[0].value, Dec::from_whole(250));
    assert_eq!(t.assets[1].name, "STK");
    assert_eq!(t.assets[1].count, Dec::from_whole(25));
    assert_eq!(t.assets[1].value, Dec::from_whole(250));
    assert_eq!(t.value, Dec::from_whole(500));
    assert_eq!(t.assets[0].alloc, Dec::from_whole(50));
    assert_eq!(t.assets[1].alloc, Dec::from_whole(50));
}

#[test]
fn full_rebalance_conserves_value_through_the_sink() {
    // 50 of the 100 goes to USD; STK's third truncates, leaving a tiny
    // residue that the currency asset absorbs, keeping the total at 100.
    let p = load_portfolio(vec![asset("USD", 1, 100, 50), asset("STK", 3, 0, 50)], false).unwrap();
    let t = p.rebalance();
    assert_eq!(t.value, Dec::from_whole(100));
    // The sink keeps its rebalanced 50 and absorbs the leftover on top.
    assert_eq!(t.assets[0].count, Dec::from_units(50_000_000_002));
    assert_eq!(t.assets[0].value, Dec::from_units(50_000_000_002));
    assert_eq!(t.assets[1].count, Dec::from_units(16_666_666_666));
}

#[test]
fn full_rebalance_conserves_value_at_any_currency_price() {
    // The sink works in values, so a currency priced at 2 still absorbs
    // the leftover exactly: half a unit of count per unit of value.
    let p = load_portfolio(vec![asset("USD", 2, 50, 50), asset("STK", 3, 0, 50)], false).unwrap();
    let t = p.rebalance();
    assert_eq!(t.value, Dec::from_whole(100));
    assert_eq!(t.assets[0].count, Dec::from_units(25_000_000_001));
    assert_eq!(t.assets[0].value, Dec::from_units(50_000_000_002));
}

#[test]
fn rebalance_readiness_check_detects_a_vanishing_target() {
    // Without a currency sink, a portfolio whose single rebalanced
    // count truncates to a zero value has no target to allocate.
    let p = Portfolio {
        assets: vec![Asset {
            name: "A".to_owned(),
            price: Dec::from_units(3_000_000_001),
            count: Dec::from_units(1),
            alloc: Dec::from_whole(100),
            value: Dec::from_units(3),
        }],
        donotsell: false,
        value: Dec::from_units(3),
    };
    assert!(!p.can_rebalance());
    let q = example_portfolio(false);
    assert!(q.can_rebalance());
}

#[test]
fn add_without_selling_example() {
    let p = example_portfolio(true);
    let t = p.add_without_selling().unwrap();
    assert_eq!(t.assets[0].name, "USD");
    assert_eq!(t.assets[0].count, Dec::from_whole(0));
    assert_eq!(t.assets[0].value, Dec::from_whole(0));
    assert_eq!(t.assets[1].name, "STK");
    assert_eq!(t.assets[1].count, Dec::from_whole(25));
    assert_eq!(t.assets[1].value, Dec::from_whole(250));
    assert_eq!(t.value, Dec::from_whole(250));
}

#[test]
fn add_without_selling_never_reduces_holdings() {
    let p = load_portfolio(
        vec![asset("A", 2, 7, 30), asset("USD", 1, 100, 40), asset("B", 5, 3, 30)],
        true,
    )
    .unwrap();
    let t = p.add_without_selling().unwrap();
    for (orig, new) in p.assets.iter().zip(t.assets.iter()) {
        if orig.name != "USD" {
            assert!(new.count.units() >= orig.count.units());
        } else {
            assert_eq!(new.count, Dec::zero());
            assert_eq!(new.value, Dec::zero());
        }
    }
}

#[test]
fn add_without_selling_needs_a_currency_asset() {
    // Loaded portfolios always hold one, so build the input directly.
    let p = Portfolio {
        assets: vec![asset("A", 1, 1, 100)],
        donotsell: true,
        value: Dec::from_whole(1),
    };
    assert_eq!(p.add_without_selling().unwrap_err(), EngineError::MissingCurrency);
}

#[test]
fn add_without_selling_zeroes_every_currency_asset() {
    // The deployable cash is the first currency asset's value, but the
    // zeroing policy applies to every asset carrying the currency name.
    let p = load_portfolio(
        vec![asset("USD", 1, 100, 40), asset("USD", 1, 50, 30), asset("STK", 2, 0, 30)],
        true,
    )
    .unwrap();
    let t = p.add_without_selling().unwrap();
    assert_eq!(t.assets[0].count, Dec::zero());
    assert_eq!(t.assets[1].count, Dec::zero());
    // STK receives 30% of the first currency's 100: 30 spent at price 2.
    assert_eq!(t.assets[2].count, Dec::from_whole(15));
    assert_eq!(t.value, Dec::from_whole(30));
}

#[test]
fn full_rebalance_without_a_currency_asset_skips_the_sink() {
    // Loaded portfolios always hold a currency asset; built directly,
    // the rebalance still works and simply has no sink to fill.
    let p = Portfolio {
        assets: vec![Asset {
            name: "A".to_owned(),
            price: Dec::from_whole(1),
            count: Dec::from_whole(100),
            alloc: Dec::from_whole(100),
            value: Dec::from_whole(100),
        }],
        donotsell: false,
        value: Dec::from_whole(100),
    };
    let t = p.rebalance();
    assert_eq!(t.assets[0].count, Dec::from_whole(100));
    assert_eq!(t.value, Dec::from_whole(100));
    assert_eq!(t.assets[0].alloc, Dec::from_whole(100));
}

#[test]
fn add_without_selling_rejects_an_empty_cash_pool() {
    // A currency asset that holds no value cannot fund a top-up: the
    // positive cash pool is a hard precondition of the strategy.
    let p = load_portfolio(vec![asset("USD", 1, 0, 50), asset("STK", 10, 1, 50)], true).unwrap();
    assert_eq!(p.add_without_selling().unwrap_err(), EngineError::MissingCurrency);
}

#[test]
fn top_up_readiness_check_detects_a_vanishing_target() {
    // One unit of cash spread at 50% truncates to no purchase at all,
    // and the currency itself is zeroed: the target holds nothing.
    let p = load_portfolio(
        vec![
            Asset {
                name: "USD".to_owned(),
                price: Dec::from_whole(1),
                count: Dec::from_units(1),
                alloc: Dec::from_whole(50),
                value: Dec::zero(),
            },
            Asset {
                name: "B".to_owned(),
                price: Dec::from_whole(2),
                count: Dec::zero(),
                alloc: Dec::from_whole(50),
                value: Dec::zero(),
            },
        ],
        true,
    )
    .unwrap();
    assert!(!p.can_add_without_selling());
    let q = example_portfolio(true);
    assert!(q.can_add_without_selling());
}

#[test]
fn transaction_values_stay_positive_for_tiny_diffs() {
    // A sub-unit trade still moves money: the attached value rounds up
    // to one representable unit instead of truncating to zero.
    let p = load_portfolio(vec![asset("USD", 1, 0, 100)], false).unwrap();
    let mut t = example_target_like(&p);
    t.assets[0].count = Dec::from_units(1);
    let actions = p.get_actions(&t).unwrap();
    assert_eq!(actions.len(), 1);
    assert_eq!(actions[0].buysell, BuySell::Buy);
    assert_eq!(actions[0].amount, 0);
    assert_eq!(actions[0].transaction_value, Dec::from_units(1));
}

#[test]
fn actions_for_identical_portfolios_are_empty() {
    let p = example_portfolio(false);
    let actions = p.get_actions(&p).unwrap();
    assert!(actions.is_empty());
}

#[test]
fn actions_for_the_example_rebalance() {
    let p = example_portfolio(false);
    let t = p.rebalance();
    let actions = p.get_actions(&t).unwrap();
    assert_eq!(actions.len(), 2);
    assert_eq!(actions[0].buysell, BuySell::Sell);
    assert_eq!(actions[0].amount, 250);
    assert_eq!(actions[0].name, "USD");
    assert_eq!(actions[0].transaction_value, Dec::from_whole(250));
    assert_eq!(actions[1].buysell, BuySell::Buy);
    assert_eq!(actions[1].amount, 25);
    assert_eq!(actions[1].name, "STK");
    assert_eq!(actions[1].transaction_value, Dec::from_whole(250));
}

#[test]
fn action_amounts_truncate_fractions() {
    let p = load_portfolio(vec![asset("USD", 1, 100, 50), asset("STK", 3, 0, 50)], false).unwrap();
    let t = p.rebalance();
    let actions = p.get_actions(&t).unwrap();
    // STK moves from 0 to 16.666666666: a buy of 16 whole units valued
    // at the exact fractional amount.
    assert_eq!(actions[1].buysell, BuySell::Buy);
    assert_eq!(actions[1].amount, 16);
    assert_eq!(actions[1].transaction_value, Dec::from_units(49_999_999_998));
}

#[test]
fn oversized_buy_fails() {
    let p = load_portfolio(vec![asset("USD", 1, 1, 100)], false).unwrap();
    let mut t = example_target_like(&p);
    // A buy of 5 billion whole units does not fit a u32.
    t.assets[0].count = Dec::from_whole(5_000_000_000);
    assert_eq!(p.get_actions(&t).unwrap_err(), EngineError::QuantityOverflow);
}

#[test]
fn oversized_sell_fails_at_the_signed_bound() {
    let p = load_portfolio(vec![asset("USD", 1, 3_000_000_000, 100)], false).unwrap();
    let mut t = example_target_like(&p);
    // A sell goes through a signed 32-bit intermediate, so 3 billion
    // units cannot be sold even though they could be bought.
    t.assets[0].count = Dec::zero();
    assert_eq!(p.get_actions(&t).unwrap_err(), EngineError::QuantityOverflow);

    let big = load_portfolio(vec![asset("USD", 1, 1, 100)], false).unwrap();
    let mut bt = example_target_like(&big);
    bt.assets[0].count = Dec::from_whole(3_000_000_001);
    let actions = big.get_actions(&bt).unwrap();
    assert_eq!(actions[0].buysell, BuySell::Buy);
    assert_eq!(actions[0].amount, 3_000_000_000);
}

fn example_target_like(p: &Portfolio) -> Portfolio {
    Portfolio {
        assets: p.assets.iter().map(|a| a.duplicate()).collect(),
        donotsell: p.donotsell,
        value: p.value,
    }
}

#[test]
fn display_data_truncates_percentages() {
    let mut p = load_portfolio(
        vec![asset("USD", 1, 1, 40), asset("A", 1, 1, 30), asset("B", 1, 1, 30)],
        false,
    )
    .unwrap();
    let data = p.get_display_data().unwrap();
    assert_eq!(data.len(), 3);
    // Each third of the total displays as a truncated 33 percent.
    assert_eq!(data[0], ("USD".to_owned(), 33));
    assert_eq!(data[1], ("A".to_owned(), 33));
    assert_eq!(data[2], ("B".to_owned(), 33));
}

#[test]
fn display_data_for_the_example() {
    let mut p = example_portfolio(false);
    let data = p.get_display_data().unwrap();
    assert_eq!(data[0], ("USD".to_owned(), 100));
    assert_eq!(data[1], ("STK".to_owned(), 0));
}

#[test]
fn allocation_sum_reports_the_exact_sum() {
    let p = example_portfolio(false);
    assert_eq!(p.get_allocation_sum().unwrap(), Dec::from_whole(100));
    assert!(p.is_target_allocation_sane());
    let q = Portfolio {
        assets: vec![asset("USD", 1, 1, 60)],
        donotsell: false,
        value: Dec::zero(),
    };
    assert_eq!(q.get_allocation_sum().unwrap(), Dec::from_whole(60));
    assert!(!q.is_target_allocation_sane());
}

#[test]
fn currency_lookup_finds_the_first_match() {
    let p = example_portfolio(false);
    assert!(p.has_currency());
    let c = p.get_currency().unwrap();
    assert_eq!(c.name, "USD");
    assert_eq!(c.value, Dec::from_whole(500));
    let q = Portfolio {
        assets: vec![asset("A", 1, 1, 100)],
        donotsell: false,
        value: Dec::zero(),
    };
    assert!(!q.has_currency());
    assert!(q.get_currency().is_none());
}

#[test]
fn scale_constant_gives_nine_fractional_digits() {
    assert_eq!(SCALE, 1_000_000_000);
    assert_eq!(Dec::from_whole(1).units(), SCALE);
}
