use fin::decision::allocation_decision;
use fin::diff::ticker_diffs;
use fin::model::{
    AssetClass, Fraction, PortfolioActual, PortfolioError, PortfolioGoal, StockBondAction, Ticker,
    TickerAction, TickerActual, TickerDiff, TickerGoal,
};
use fin::portfolio::{select_next_buy, Portfolio};

fn ticker(symbol: &str, price: u64, asset_class: AssetClass) -> Ticker {
    Ticker { symbol: symbol.to_string(), price, asset_class }
}

fn goal_entry(symbol: &str, goal_percent: u32, order: u32) -> TickerGoal {
    TickerGoal { symbol: symbol.to_string(), goal_percent, order }
}

fn holding(symbol: &str, value: u64) -> TickerActual {
    TickerActual::new(symbol.to_string(), value, 1)
}

fn goal(entries: Vec<TickerGoal>, goal_stock_percent: u32, deviation_percent: u32) -> PortfolioGoal {
    PortfolioGoal { tickers: entries, goal_stock_percent, deviation_percent }
}

fn diff(symbol: &str, action: TickerAction, order: u32) -> TickerDiff {
    TickerDiff {
        symbol: symbol.to_string(),
        goal_minus_actual: Fraction { num: 0, den: 1 },
        action,
        order,
    }
}

fn catalog_ab() -> Vec<Ticker> {
    vec![ticker("AAA", 1000, AssetClass::Equity), ticker("BBB", 500, AssetClass::FixedIncome)]
}

fn scenario(deviation: u32) -> Portfolio {
    Portfolio::new(
        "my portfolio".to_string(),
        catalog_ab(),
        goal(vec![goal_entry("AAA", 6000, 1), goal_entry("BBB", 4000, 2)], 5800, deviation),
        vec![holding("AAA", 700), holding("BBB", 300)],
    )
    .unwrap()
}

#[test]
fn scenario_a_sell_over_and_buy_under() {
    let p = scenario(500);
    assert_eq!(p.tickers_diff.len(), 2);
    let a = &p.tickers_diff[0];
    assert_eq!(a.symbol, "AAA");
    assert_eq!(a.goal_minus_actual.num, -1_000_000);
    assert_eq!(a.goal_minus_actual.den, 1000);
    assert_eq!(a.action, TickerAction::Sell);
    assert_eq!(a.order, 1);
    let b = &p.tickers_diff[1];
    assert_eq!(b.symbol, "BBB");
    assert_eq!(b.goal_minus_actual.num, 1_000_000);
    assert_eq!(b.goal_minus_actual.den, 1000);
    assert_eq!(b.action, TickerAction::Buy);
    assert_eq!(b.order, 2);
}

#[test]
fn scenario_b_wide_band_holds_both() {
    let p = scenario(1500);
    assert_eq!(p.tickers_diff[0].action, TickerAction::Hold);
    assert_eq!(p.tickers_diff[1].action, TickerAction::Hold);
}

#[test]
fn scenario_c_empty_holdings_divide_by_zero() {
    let r = PortfolioActual::new(vec![], &catalog_ab());
    assert!(matches!(r, Err(PortfolioError::DivideByZero)));
    let p = Portfolio::new(
        "empty".to_string(),
        catalog_ab(),
        goal(vec![goal_entry("AAA", 6000, 1)], 5800, 500),
        vec![],
    );
    assert!(matches!(p, Err(PortfolioError::DivideByZero)));
}

#[test]
fn zero_valued_holdings_divide_by_zero() {
    let r = PortfolioActual::new(vec![holding("AAA", 0), holding("BBB", 0)], &catalog_ab());
    assert!(matches!(r, Err(PortfolioError::DivideByZero)));
}

#[test]
fn scenario_d_under_weight_equity_buys_stock() {
    let d = allocation_decision(5800, Fraction { num: 5_000_000, den: 1000 }, 500);
    assert_eq!(d, StockBondAction::BuyStock);
    let p = Portfolio::new(
        "d".to_string(),
        catalog_ab(),
        goal(vec![goal_entry("AAA", 5000, 1), goal_entry("BBB", 5000, 2)], 5800, 500),
        vec![holding("AAA", 500), holding("BBB", 500)],
    )
    .unwrap();
    assert_eq!(p.current_detail.actual.actual_stock_percent.num, 5_000_000);
    assert_eq!(p.current_detail.actual.actual_stock_percent.den, 1000);
    assert_eq!(p.portfolio_action, StockBondAction::BuyStock);
    assert_eq!(p.determine_action(), StockBondAction::BuyStock);
}

#[test]
fn scenario_e_cheapest_equity_buy() {
    let catalog = vec![
        ticker("EQA", 1000, AssetClass::Equity),
        ticker("EQB", 750, AssetClass::Equity),
        ticker("BND", 100, AssetClass::FixedIncome),
    ];
    let diffs = vec![
        diff("EQA", TickerAction::Buy, 1),
        diff("EQB", TickerAction::Buy, 2),
        diff("BND", TickerAction::Buy, 3),
    ];
    let t = select_next_buy(&diffs, StockBondAction::BuyStock, &catalog).unwrap();
    assert_eq!(t.symbol, "EQB");
    assert_eq!(t.price, 750);
    assert_eq!(t.asset_class, AssetClass::Equity);
}

#[test]
fn scenario_e_fallback_to_class_when_nothing_flagged_buy() {
    let catalog = vec![
        ticker("EQA", 1000, AssetClass::Equity),
        ticker("EQB", 750, AssetClass::Equity),
        ticker("BND", 100, AssetClass::FixedIncome),
    ];
    let diffs = vec![
        diff("EQA", TickerAction::Hold, 1),
        diff("EQB", TickerAction::Sell, 2),
        diff("BND", TickerAction::Buy, 3),
    ];
    let t = select_next_buy(&diffs, StockBondAction::BuyStock, &catalog).unwrap();
    assert_eq!(t.symbol, "EQB");
}

#[test]
fn buy_flag_preferred_over_cheaper_unflagged() {
    let catalog = vec![ticker("EQA", 1000, AssetClass::Equity), ticker("EQB", 750, AssetClass::Equity)];
    let diffs = vec![diff("EQA", TickerAction::Buy, 1), diff("EQB", TickerAction::Hold, 2)];
    let t = select_next_buy(&diffs, StockBondAction::BuyStock, &catalog).unwrap();
    assert_eq!(t.symbol, "EQA");
}

#[test]
fn equal_prices_pick_the_earliest() {
    let catalog = vec![ticker("EQA", 500, AssetClass::Equity), ticker("EQB", 500, AssetClass::Equity)];
    let diffs = vec![diff("EQA", TickerAction::Buy, 1), diff("EQB", TickerAction::Buy, 2)];
    let t = select_next_buy(&diffs, StockBondAction::BuyEither, &catalog).unwrap();
    assert_eq!(t.symbol, "EQA");
}

#[test]
fn no_candidate_of_the_class() {
    let catalog = vec![ticker("EQA", 500, AssetClass::Equity)];
    let diffs = vec![diff("EQA", TickerAction::Buy, 1)];
    let r = select_next_buy(&diffs, StockBondAction::BuyBond, &catalog);
    assert!(matches!(r, Err(PortfolioError::NoCandidate)));
    let r = select_next_buy(&vec![], StockBondAction::BuyEither, &catalog);
    assert!(matches!(r, Err(PortfolioError::NoCandidate)));
}

#[test]
fn scenario_f_missing_goal_entry() {
    let catalog = vec![
        ticker("AAA", 1000, AssetClass::Equity),
        ticker("BBB", 500, AssetClass::FixedIncome),
        ticker("CCC", 200, AssetClass::Equity),
    ];
    let r = Portfolio::new(
        "f".to_string(),
        catalog,
        goal(vec![goal_entry("AAA", 6000, 1), goal_entry("BBB", 4000, 2)], 5800, 500),
        vec![holding("AAA", 700), holding("CCC", 100), holding("BBB", 300)],
    );
    match r {
        Err(PortfolioError::MissingGoalEntry(s)) => assert_eq!(s, "CCC"),
        _ => panic!("expected a missing goal entry"),
    }
}

#[test]
fn missing_catalog_entry() {
    let r = PortfolioActual::new(vec![holding("AAA", 700), holding("ZZZ", 300)], &catalog_ab());
    match r {
        Err(PortfolioError::MissingCatalogEntry(s)) => assert_eq!(s, "ZZZ"),
        _ => panic!("expected a missing catalog entry"),
    }
}

#[test]
fn percents_sum_to_whole() {
    let a = PortfolioActual::new(
        vec![holding("AAA", 333), holding("BBB", 667)],
        &catalog_ab(),
    )
    .unwrap();
    assert_eq!(a.total_value, 1000);
    let sum: i128 = a.tickers.iter().map(|t| t.actual_percent.num).sum();
    assert_eq!(sum, 10000 * 1000);
    for t in &a.tickers {
        assert_eq!(t.actual_percent.den, 1000);
    }
    assert_eq!(a.tickers[0].actual_percent.num, 3_330_000);
    assert_eq!(a.actual_stock_percent.num, 3_330_000);
}

#[test]
fn band_edge_is_held() {
    let p = Portfolio::new(
        "edge".to_string(),
        catalog_ab(),
        goal(vec![goal_entry("AAA", 6500, 1), goal_entry("BBB", 3500, 2)], 5800, 500),
        vec![holding("AAA", 700), holding("BBB", 300)],
    )
    .unwrap();
    assert_eq!(p.tickers_diff[0].goal_minus_actual.num, -500_000);
    assert_eq!(p.tickers_diff[0].action, TickerAction::Hold);
    assert_eq!(p.tickers_diff[1].goal_minus_actual.num, 500_000);
    assert_eq!(p.tickers_diff[1].action, TickerAction::Hold);
}

#[test]
fn decision_follows_the_band() {
    assert_eq!(allocation_decision(5800, Fraction { num: 7000, den: 1 }, 500), StockBondAction::BuyBond);
    assert_eq!(allocation_decision(5800, Fraction { num: 5300, den: 1 }, 500), StockBondAction::BuyEither);
    assert_eq!(allocation_decision(5800, Fraction { num: 5299, den: 1 }, 500), StockBondAction::BuyStock);
    assert_eq!(allocation_decision(5800, Fraction { num: 6300, den: 1 }, 500), StockBondAction::BuyEither);
    assert_eq!(allocation_decision(5800, Fraction { num: 6301, den: 1 }, 500), StockBondAction::BuyBond);
}

#[test]
fn buy_next_is_repeatable() {
    let p = scenario(500);
    let first = p.get_buy_next().unwrap();
    let second = p.get_buy_next().unwrap();
    assert_eq!(first.symbol, second.symbol);
    assert_eq!(first.price, second.price);
    assert_eq!(p.portfolio_action, StockBondAction::BuyBond);
    assert_eq!(first.symbol, "BBB");
}

#[test]
fn diffs_are_repeatable() {
    let p = scenario(500);
    let first = p.calculate_ticker_diff().unwrap();
    let second = p.calculate_ticker_diff().unwrap();
    assert_eq!(first.len(), second.len());
    for i in 0..first.len() {
        assert_eq!(first[i].symbol, second[i].symbol);
        assert_eq!(first[i].goal_minus_actual, second[i].goal_minus_actual);
        assert_eq!(first[i].action, second[i].action);
        assert_eq!(first[i].order, second[i].order);
        assert_eq!(first[i].symbol, p.tickers_diff[i].symbol);
    }
}

#[test]
fn diffs_sorted_by_goal_order() {
    let a = PortfolioActual::new(
        vec![holding("AAA", 100), holding("BBB", 100), holding("CCC", 100)],
        &vec![
            ticker("AAA", 1, AssetClass::Equity),
            ticker("BBB", 1, AssetClass::Equity),
            ticker("CCC", 1, AssetClass::Equity),
        ],
    )
    .unwrap();
    let g = goal(
        vec![goal_entry("AAA", 3000, 3), goal_entry("BBB", 3000, 1), goal_entry("CCC", 4000, 1)],
        5800,
        500,
    );
    let v = ticker_diffs(&g, &a).unwrap();
    let names: Vec<&str> = v.iter().map(|d| d.symbol.as_str()).collect();
    assert_eq!(names, vec!["BBB", "CCC", "AAA"]);
    assert_eq!(v[1].action, TickerAction::Buy);
}

#[test]
fn update_actual_percent_fills_share() {
    let t = holding("AAA", 250).update_actual_percent(1000).unwrap();
    assert_eq!(t.actual_percent, Fraction { num: 2_500_000, den: 1000 });
    assert_eq!(t.actual_value, 250);
    let r = holding("AAA", 250).update_actual_percent(0);
    assert!(matches!(r, Err(PortfolioError::DivideByZero)));
}

#[test]
fn ticker_diff_new_and_empty() {
    let a = holding("AAA", 200).update_actual_percent(1000).unwrap();
    let d = TickerDiff::new(&a, &goal_entry("AAA", 1000, 7), 500);
    assert_eq!(d.goal_minus_actual, Fraction { num: -1_000_000, den: 1000 });
    assert_eq!(d.action, TickerAction::Sell);
    assert_eq!(d.order, 7);
    let e = TickerDiff::empty();
    assert_eq!(e.symbol, "");
    assert_eq!(e.action, TickerAction::Hold);
    assert_eq!(e.order, 0);
}

#[test]
fn get_ticker_found_and_missing() {
    let p = scenario(500);
    let t = p.get_ticker(&"AAA".to_string()).unwrap();
    assert_eq!(t.price, 1000);
    assert!(t.is_stock());
    assert!(!t.is_bond());
    match p.get_ticker(&"QQQ".to_string()) {
        Err(PortfolioError::MissingCatalogEntry(s)) => assert_eq!(s, "QQQ"),
        _ => panic!("expected a missing catalog entry"),
    }
}

#[test]
fn update_appends_history() {
    let mut p = scenario(500);
    let r = p.update(
        goal(vec![goal_entry("AAA", 5000, 1), goal_entry("BBB", 5000, 2)], 5800, 500),
        vec![holding("AAA", 200), holding("BBB", 800)],
    );
    assert!(r.is_ok());
    assert_eq!(p.past_detail.len(), 1);
    assert_eq!(p.past_detail[0].actual.total_value, 1000);
    assert_eq!(p.past_detail[0].goal.tickers[0].goal_percent, 6000);
    assert_eq!(p.current_detail.actual.actual_stock_percent, Fraction { num: 2_000_000, den: 1000 });
    assert_eq!(p.portfolio_action, StockBondAction::BuyStock);
    assert_eq!(p.tickers_diff[0].action, TickerAction::Buy);
    assert_eq!(p.tickers_diff[1].action, TickerAction::Sell);
    assert_eq!(p.get_buy_next().unwrap().symbol, "AAA");
}

#[test]
fn failed_update_leaves_portfolio() {
    let mut p = scenario(500);
    let r = p.update(goal(vec![goal_entry("AAA", 10000, 1)], 5800, 500), vec![holding("BBB", 10)]);
    match r {
        Err(PortfolioError::MissingGoalEntry(s)) => assert_eq!(s, "BBB"),
        _ => panic!("expected a missing goal entry"),
    }
    assert_eq!(p.past_detail.len(), 0);
    assert_eq!(p.current_detail.actual.total_value, 1000);
    assert_eq!(p.tickers_diff.len(), 2);
}

#[test]
fn selector_reports_uncatalogued_diff() {
    let catalog = vec![ticker("EQA", 500, AssetClass::Equity)];
    let diffs = vec![diff("EQA", TickerAction::Buy, 1), diff("XYZ", TickerAction::Buy, 2)];
    match select_next_buy(&diffs, StockBondAction::BuyEither, &catalog) {
        Err(PortfolioError::MissingCatalogEntry(s)) => assert_eq!(s, "XYZ"),
        _ => panic!("expected a missing catalog entry"),
    }
}
