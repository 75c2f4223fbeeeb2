use vstd::prelude::*;
use crate::diff::{action_for, gap_num};
use crate::model::{percent_valid, Fraction, StockBondAction, TickerAction};

verus! {

/// The asset class the next purchase should come from, given the goal and
/// actual equity shares and the tolerance band: the same exclusive-band rule
/// as for a single holding, applied to the portfolio's equity share.
pub open spec fn decision_for(goal_stock: u32, actual_stock: Fraction, deviation: u32) -> StockBondAction {
    let d = gap_num(goal_stock, actual_stock);
    let band = deviation * actual_stock.den;
    if d < 0 && -d > band {
        StockBondAction::BuyBond
    } else if d > 0 && d > band {
        StockBondAction::BuyStock
    } else {
        StockBondAction::BuyEither
    }
}

/// Decides from which asset class the next purchase should come.
pub fn allocation_decision(goal_stock_percent: u32, actual_stock_percent: Fraction, deviation_percent: u32) -> (r: StockBondAction)
    requires
        percent_valid(actual_stock_percent),
    ensures
        r == decision_for(goal_stock_percent, actual_stock_percent, deviation_percent),
{
    let den = actual_stock_percent.den;
    proof {
        assert(goal_stock_percent * den <= u32::MAX * u64::MAX) by (nonlinear_arith)
            requires goal_stock_percent <= u32::MAX, den <= u64::MAX;
        assert(deviation_percent * den <= u32::MAX * u64::MAX) by (nonlinear_arith)
            requires deviation_percent <= u32::MAX, den <= u64::MAX;
        assert(0 <= goal_stock_percent * den) by (nonlinear_arith)
            requires goal_stock_percent >= 0, den >= 0;
        assert(0 <= deviation_percent * den) by (nonlinear_arith)
            requires deviation_percent >= 0, den >= 0;
    }
    let d: i128 = (goal_stock_percent as i128) * (den as i128) - actual_stock_percent.num;
    let band: i128 = (deviation_percent as i128) * (den as i128);
    if d < 0 && -d > band {
        StockBondAction::BuyBond
    } else if d > 0 && d > band {
        StockBondAction::BuyStock
    } else {
        StockBondAction::BuyEither
    }
}

/// The portfolio-level decision follows the per-holding rule: buy equity
/// exactly when the goal equity share exceeds the actual one by more than the
/// band, and fixed income exactly when it falls short by more than the band.
pub proof fn lemma_decision_consistent(goal_stock: u32, actual_stock: Fraction, deviation: u32)
    requires
        percent_valid(actual_stock),
    ensures
        (decision_for(goal_stock, actual_stock, deviation) == StockBondAction::BuyStock) <==> gap_num(goal_stock, actual_stock) > deviation * actual_stock.den,
        (decision_for(goal_stock, actual_stock, deviation) == StockBondAction::BuyStock) <==> action_for(gap_num(goal_stock, actual_stock), actual_stock.den as int, deviation as int) == TickerAction::Buy,
        (decision_for(goal_stock, actual_stock, deviation) == StockBondAction::BuyBond) <==> action_for(gap_num(goal_stock, actual_stock), actual_stock.den as int, deviation as int) == TickerAction::Sell,
        (decision_for(goal_stock, actual_stock, deviation) == StockBondAction::BuyEither) <==> action_for(gap_num(goal_stock, actual_stock), actual_stock.den as int, deviation as int) == TickerAction::Hold,
{
    let den = actual_stock.den;
    assert(0 <= deviation * den) by (nonlinear_arith)
        requires deviation >= 0, den >= 0;
}

}
