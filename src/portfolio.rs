use vstd::prelude::*;
use crate::actual::{lemma_total_nonneg, total_of, with_percent};
use crate::decision::{allocation_decision, decision_for};
use crate::diff::{
    all_budgeted, diff_engine, diffs_unsorted, is_first_unbudgeted, lemma_first_unbudgeted_exists,
    lemma_sort_by_order, sort_by_order, ticker_diffs,
};
use crate::model::{
    actual_symbols_distinct, catalog_symbols_distinct, find_ticker, goal_symbols_distinct, has_goal,
    in_catalog, lemma_ticker_for_index, ticker_for, AssetClass, PortfolioActual, PortfolioDetail,
    PortfolioError, PortfolioGoal, StockBondAction, Ticker, TickerAction, TickerActual, TickerDiff,
};

verus! {

/// A named portfolio: the current goal and allocation, earlier snapshots, the
/// catalog the computation used, and the derived diffs and decision.
#[derive(Clone, Debug)]
pub struct Portfolio {
    pub name: String,
    pub current_detail: PortfolioDetail,
    pub past_detail: Vec<PortfolioDetail>,
    pub tickers: Vec<Ticker>,
    pub tickers_diff: Vec<TickerDiff>,
    pub portfolio_action: StockBondAction,
}

/// Whether a diff's holding belongs to the class that `decision` asks for.
pub open spec fn class_matches(decision: StockBondAction, catalog: Seq<Ticker>, d: TickerDiff) -> bool {
    match decision {
        StockBondAction::BuyStock => ticker_for(catalog, d.symbol@).asset_class == AssetClass::Equity,
        StockBondAction::BuyBond => ticker_for(catalog, d.symbol@).asset_class == AssetClass::FixedIncome,
        StockBondAction::BuyEither => true,
    }
}

pub open spec fn class_pred(decision: StockBondAction, catalog: Seq<Ticker>) -> spec_fn(TickerDiff) -> bool {
    |d: TickerDiff| class_matches(decision, catalog, d)
}

pub open spec fn buy_pred() -> spec_fn(TickerDiff) -> bool {
    |d: TickerDiff| d.action == TickerAction::Buy
}

/// The diffs of the class that `decision` asks for.
pub open spec fn by_class(diffs: Seq<TickerDiff>, decision: StockBondAction, catalog: Seq<Ticker>) -> Seq<TickerDiff> {
    diffs.filter(class_pred(decision, catalog))
}

/// The candidates for the next purchase: those of the class that are flagged
/// Buy, or, where none is, all of the class.
pub open spec fn buy_pool(diffs: Seq<TickerDiff>, decision: StockBondAction, catalog: Seq<Ticker>) -> Seq<TickerDiff> {
    let c = by_class(diffs, decision, catalog);
    let b = c.filter(buy_pred());
    if b.len() > 0 {
        b
    } else {
        c
    }
}

pub open spec fn price_of(catalog: Seq<Ticker>, d: TickerDiff) -> int {
    ticker_for(catalog, d.symbol@).price as int
}

/// The index of the first of the cheapest entries of a non-empty `s`.
pub open spec fn cheapest_index(s: Seq<TickerDiff>, catalog: Seq<Ticker>) -> int
    decreases s.len(),
{
    if s.len() <= 1 {
        0
    } else {
        let k = cheapest_index(s.drop_last(), catalog);
        if price_of(catalog, s.last()) < price_of(catalog, s.drop_last()[k]) {
            s.len() - 1
        } else {
            k
        }
    }
}

/// `i` is the first diff whose symbol the catalog lacks.
pub open spec fn is_first_uncatalogued_diff(catalog: Seq<Ticker>, diffs: Seq<TickerDiff>, i: int) -> bool {
    &&& 0 <= i < diffs.len()
    &&& !in_catalog(catalog, diffs[i].symbol@)
    &&& forall|j: int| 0 <= j < i ==> in_catalog(catalog, #[trigger] diffs[j].symbol@)
}

/// The next purchase: the catalog entry of the cheapest candidate, the
/// earliest in diff order among equally cheap ones. A diff that the catalog
/// lacks is an error.
pub open spec fn next_buy(diffs: Seq<TickerDiff>, decision: StockBondAction, catalog: Seq<Ticker>) -> Result<Ticker, PortfolioError> {
    let pool = buy_pool(diffs, decision, catalog);
    if exists|i: int| is_first_uncatalogued_diff(catalog, diffs, i) {
        Err(PortfolioError::MissingCatalogEntry(diffs[choose|i: int| is_first_uncatalogued_diff(catalog, diffs, i)].symbol))
    } else if pool.len() == 0 {
        Err(PortfolioError::NoCandidate)
    } else {
        Ok(ticker_for(catalog, pool[cheapest_index(pool, catalog)].symbol@))
    }
}

/// The cheapest index picks a cheapest entry, and the first of them.
pub proof fn lemma_cheapest_index(s: Seq<TickerDiff>, catalog: Seq<Ticker>)
    requires
        s.len() > 0,
    ensures
        0 <= cheapest_index(s, catalog) < s.len(),
        forall|j: int| 0 <= j < s.len() ==> price_of(catalog, s[cheapest_index(s, catalog)]) <= price_of(catalog, #[trigger] s[j]),
        forall|j: int| 0 <= j < cheapest_index(s, catalog) ==> price_of(catalog, #[trigger] s[j]) > price_of(catalog, s[cheapest_index(s, catalog)]),
    decreases s.len(),
{
    if s.len() > 1 {
        lemma_cheapest_index(s.drop_last(), catalog);
        let k = cheapest_index(s.drop_last(), catalog);
        assert(s.drop_last()[k] == s[k]);
        assert forall|j: int| 0 <= j < s.len() - 1 implies #[trigger] s[j] == s.drop_last()[j] by {}
    }
}

/// Picks the next holding to buy among `diffs` under `decision`.
pub fn select_next_buy(diffs: &Vec<TickerDiff>, decision: StockBondAction, catalog: &Vec<Ticker>) -> (r: Result<Ticker, PortfolioError>)
    requires
        catalog_symbols_distinct(catalog@),
    ensures
        r == next_buy(diffs@, decision, catalog@),
{
    let mut i: usize = 0;
    while i < diffs.len()
        invariant
            i <= diffs@.len(),
            forall|m: int| 0 <= m < i ==> in_catalog(catalog@, #[trigger] diffs@[m].symbol@),
        decreases diffs@.len() - i,
    {
        if find_ticker(catalog, &diffs[i].symbol).is_none() {
            proof {
                assert(is_first_uncatalogued_diff(catalog@, diffs@, i as int));
                let k = choose|k: int| is_first_uncatalogued_diff(catalog@, diffs@, k);
                assert(k == i);
            }
            return Err(PortfolioError::MissingCatalogEntry(diffs[i].symbol.clone()));
        }
        i = i + 1;
    }
    assert(!exists|k: int| is_first_uncatalogued_diff(catalog@, diffs@, k));
    let ghost cp = class_pred(decision, catalog@);
    let ghost bp = buy_pred();
    let mut class_diffs: Vec<TickerDiff> = Vec::new();
    let mut buys: Vec<TickerDiff> = Vec::new();
    i = 0;
    while i < diffs.len()
        invariant
            i <= diffs@.len(),
            catalog_symbols_distinct(catalog@),
            forall|m: int| 0 <= m < diffs@.len() ==> in_catalog(catalog@, #[trigger] diffs@[m].symbol@),
            cp == class_pred(decision, catalog@),
            bp == buy_pred(),
            class_diffs@ == diffs@.take(i as int).filter(cp),
            buys@ == class_diffs@.filter(bp),
            forall|m: int| 0 <= m < class_diffs@.len() ==> in_catalog(catalog@, #[trigger] class_diffs@[m].symbol@),
            forall|m: int| 0 <= m < buys@.len() ==> in_catalog(catalog@, #[trigger] buys@[m].symbol@),
        decreases diffs@.len() - i,
    {
        let d = &diffs[i];
        proof {
            assert(diffs@.take(i as int + 1).drop_last() =~= diffs@.take(i as int));
            assert(diffs@.take(i as int + 1).last() == diffs@[i as int]);
            assert(in_catalog(catalog@, diffs@[i as int].symbol@));
        }
        let keep = match find_ticker(catalog, &d.symbol) {
            None => false,
            Some(k) => {
                proof {
                    lemma_ticker_for_index(catalog@, k as int);
                }
                match decision {
                    StockBondAction::BuyStock => catalog[k].is_stock(),
                    StockBondAction::BuyBond => catalog[k].is_bond(),
                    StockBondAction::BuyEither => true,
                }
            },
        };
        assert(keep == cp(diffs@[i as int]));
        let ghost t1 = diffs@.take(i as int + 1);
        let ghost prev_class = class_diffs@;
        let ghost prev_buys = buys@;
        proof {
            reveal(Seq::filter);
            assert(t1.drop_last() =~= diffs@.take(i as int));
            assert(t1.len() > 0);
            assert(t1.filter(cp) == if cp(t1.last()) {
                t1.drop_last().filter(cp).push(t1.last())
            } else {
                t1.drop_last().filter(cp)
            });
        }
        if keep {
            class_diffs.push(d.copied());
            proof {
                reveal(Seq::filter);
                assert(class_diffs@ == prev_class.push(diffs@[i as int]));
                assert(class_diffs@.drop_last() =~= prev_class);
                assert(class_diffs@.filter(bp) == if bp(class_diffs@.last()) {
                    class_diffs@.drop_last().filter(bp).push(class_diffs@.last())
                } else {
                    class_diffs@.drop_last().filter(bp)
                });
                assert(bp(diffs@[i as int]) == (diffs@[i as int].action == TickerAction::Buy));
            }
            if d.action == TickerAction::Buy {
                buys.push(d.copied());
            }
        }
        i = i + 1;
    }
    proof {
        assert(diffs@.take(diffs@.len() as int) =~= diffs@);
    }
    let pool = if buys.len() > 0 {
        buys
    } else {
        class_diffs
    };
    if pool.len() == 0 {
        return Err(PortfolioError::NoCandidate);
    }
    let mut best: usize = 0;
    let mut best_price: u64 = match find_ticker(catalog, &pool[0].symbol) {
        None => 0,
        Some(k) => {
            proof {
                lemma_ticker_for_index(catalog@, k as int);
            }
            catalog[k].price
        },
    };
    let mut j: usize = 1;
    proof {
        assert(in_catalog(catalog@, pool@[0].symbol@));
    }
    while j < pool.len()
        invariant
            1 <= j <= pool@.len(),
            catalog_symbols_distinct(catalog@),
            forall|m: int| 0 <= m < pool@.len() ==> in_catalog(catalog@, #[trigger] pool@[m].symbol@),
            best == cheapest_index(pool@.take(j as int), catalog@),
            best < j,
            best_price == price_of(catalog@, pool@[best as int]),
        decreases pool@.len() - j,
    {
        proof {
            assert(pool@.take(j as int + 1).drop_last() =~= pool@.take(j as int));
            assert(in_catalog(catalog@, pool@[j as int].symbol@));
        }
        match find_ticker(catalog, &pool[j].symbol) {
            None => {},
            Some(k) => {
                proof {
                    lemma_ticker_for_index(catalog@, k as int);
                }
                if catalog[k].price < best_price {
                    best = j;
                    best_price = catalog[k].price;
                }
            },
        }
        j = j + 1;
    }
    proof {
        assert(pool@.take(pool@.len() as int) =~= pool@);
        assert(in_catalog(catalog@, pool@[best as int].symbol@));
    }
    match find_ticker(catalog, &pool[best].symbol) {
        None => Err(PortfolioError::NoCandidate),
        Some(k) => {
            proof {
                lemma_ticker_for_index(catalog@, k as int);
            }
            Ok(catalog[k].copied())
        },
    }
}

/// Every holding is in the catalog.
pub open spec fn all_catalogued(catalog: Seq<Ticker>, holdings: Seq<TickerActual>) -> bool {
    forall|i: int| 0 <= i < holdings.len() ==> in_catalog(catalog, #[trigger] holdings[i].symbol@)
}

/// `i` is the first holding that the catalog lacks.
pub open spec fn is_first_uncatalogued(catalog: Seq<Ticker>, holdings: Seq<TickerActual>, i: int) -> bool {
    &&& 0 <= i < holdings.len()
    &&& !in_catalog(catalog, holdings[i].symbol@)
    &&& forall|j: int| 0 <= j < i ==> in_catalog(catalog, #[trigger] holdings[j].symbol@)
}

proof fn lemma_diff_symbols_catalogued(goal: PortfolioGoal, actual: PortfolioActual, catalog: Seq<Ticker>)
    requires
        all_budgeted(goal.tickers@, actual.tickers@),
        all_catalogued(catalog, actual.tickers@),
    ensures
        forall|m: int| 0 <= m < sort_by_order(diffs_unsorted(goal, actual.tickers@)).len() ==> in_catalog(
            catalog,
            #[trigger] sort_by_order(diffs_unsorted(goal, actual.tickers@))[m].symbol@,
        ),
{
    let u = diffs_unsorted(goal, actual.tickers@);
    let v = sort_by_order(u);
    lemma_sort_by_order(u);
    u.to_multiset_ensures();
    v.to_multiset_ensures();
    assert forall|m: int| 0 <= m < v.len() implies in_catalog(catalog, #[trigger] v[m].symbol@) by {
        assert(v.contains(v[m]));
        assert(v.to_multiset().count(v[m]) > 0);
        assert(u.to_multiset().count(v[m]) > 0);
        assert(u.contains(v[m]));
        let i = choose|i: int| 0 <= i < u.len() && u[i] == v[m];
        assert(in_catalog(catalog, actual.tickers@[i].symbol@));
    }
}

/// Why a portfolio cannot be built from these inputs, checked in this order:
/// a zero total value, then the first holding the catalog lacks, then the
/// first holding without a goal entry.
pub open spec fn build_error(catalog: Seq<Ticker>, goal: PortfolioGoal, holdings: Seq<TickerActual>) -> Option<PortfolioError> {
    if total_of(holdings) == 0 {
        Some(PortfolioError::DivideByZero)
    } else if !all_catalogued(catalog, holdings) {
        Some(PortfolioError::MissingCatalogEntry(holdings[choose|i: int| is_first_uncatalogued(catalog, holdings, i)].symbol))
    } else if !all_budgeted(goal.tickers@, holdings) {
        Some(PortfolioError::MissingGoalEntry(holdings[choose|i: int| is_first_unbudgeted(goal.tickers@, holdings, i)].symbol))
    } else {
        None
    }
}

/// `p` is the well-formed portfolio derived from these inputs.
pub open spec fn built_from(p: Portfolio, name: String, catalog: Seq<Ticker>, goal: PortfolioGoal, holdings: Seq<TickerActual>) -> bool {
    &&& p.wf()
    &&& p.name == name
    &&& p.tickers@ == catalog
    &&& p.current_detail.goal == goal
    &&& p.current_detail.actual.tickers@.len() == holdings.len()
    &&& forall|i: int|
        0 <= i < holdings.len() ==> #[trigger] p.current_detail.actual.tickers@[i]
            == with_percent(holdings[i], p.current_detail.actual.total_value)
}

/// A copy of the catalog, entry by entry.
fn copy_catalog(catalog: &Vec<Ticker>) -> (r: Vec<Ticker>)
    ensures
        r@ == catalog@,
{
    let mut r: Vec<Ticker> = Vec::new();
    let mut i: usize = 0;
    while i < catalog.len()
        invariant
            i <= catalog@.len(),
            r@ == catalog@.take(i as int),
        decreases catalog@.len() - i,
    {
        r.push(catalog[i].copied());
        proof {
            assert(r@ =~= catalog@.take(i as int + 1));
        }
        i = i + 1;
    }
    proof {
        assert(catalog@.take(catalog@.len() as int) =~= catalog@);
    }
    r
}

impl Portfolio {
    /// The derived state agrees with the goal, the allocation and the catalog.
    pub open spec fn wf(&self) -> bool {
        let goal = self.current_detail.goal;
        let actual = self.current_detail.actual;
        &&& goal_symbols_distinct(goal.tickers@)
        &&& catalog_symbols_distinct(self.tickers@)
        &&& actual.wf()
        &&& actual.covered_by(self.tickers@)
        &&& diff_engine(goal, actual) == Ok::<Seq<TickerDiff>, PortfolioError>(self.tickers_diff@)
        &&& forall|m: int|
            0 <= m < self.tickers_diff@.len() ==> in_catalog(self.tickers@, #[trigger] self.tickers_diff@[m].symbol@)
        &&& self.portfolio_action == decision_for(
            goal.goal_stock_percent,
            actual.actual_stock_percent,
            goal.deviation_percent,
        )
    }

    /// Builds a portfolio from the catalog, the goal and the holdings as the
    /// data source reports them, deriving the allocation, the diffs and the decision.
    pub fn new(name: String, tickers: Vec<Ticker>, goal: PortfolioGoal, holdings: Vec<TickerActual>) -> (r: Result<Portfolio, PortfolioError>)
        requires
            goal_symbols_distinct(goal.tickers@),
            catalog_symbols_distinct(tickers@),
            actual_symbols_distinct(holdings@),
            total_of(holdings@) <= u64::MAX,
        ensures
            match r {
                Ok(p) => {
                    &&& build_error(tickers@, goal, holdings@) is None
                    &&& built_from(p, name, tickers@, goal, holdings@)
                    &&& p.past_detail@.len() == 0
                },
                Err(e) => build_error(tickers@, goal, holdings@) == Some(e),
            },
    {
        let ghost h = holdings@;
        let actual = match PortfolioActual::new(holdings, &tickers) {
            Err(e) => {
                proof {
                    lemma_total_nonneg(h);
                    if total_of(h) > 0 {
                        let i = choose|i: int|
                            0 <= i < h.len() && !in_catalog(tickers@, h[i].symbol@) && (forall|j: int|
                                0 <= j < i ==> in_catalog(tickers@, #[trigger] h[j].symbol@))
                                && e == PortfolioError::MissingCatalogEntry(h[i].symbol);
                        assert(is_first_uncatalogued(tickers@, h, i));
                        assert(!all_catalogued(tickers@, h));
                        let k = choose|k: int| is_first_uncatalogued(tickers@, h, k);
                        assert(k == i);
                    }
                }
                return Err(e);
            },
            Ok(a) => a,
        };
        proof {
            lemma_total_nonneg(h);
            assert forall|i: int| 0 <= i < h.len() implies in_catalog(tickers@, #[trigger] h[i].symbol@) by {
                assert(actual.tickers@[i] == with_percent(h[i], actual.total_value));
            }
            assert forall|i: int| 0 <= i < h.len() implies #[trigger] actual.tickers@[i].symbol@ == h[i].symbol@ by {
                assert(actual.tickers@[i] == with_percent(h[i], actual.total_value));
            }
            if all_budgeted(goal.tickers@, actual.tickers@) {
                assert forall|i: int| 0 <= i < h.len() implies has_goal(goal.tickers@, #[trigger] h[i].symbol@) by {
                    assert(actual.tickers@[i].symbol@ == h[i].symbol@);
                }
            }
            if all_budgeted(goal.tickers@, h) {
                assert forall|i: int| 0 <= i < h.len() implies has_goal(goal.tickers@, #[trigger] actual.tickers@[i].symbol@) by {
                    assert(actual.tickers@[i].symbol@ == h[i].symbol@);
                }
            }
        }
        let diffs = match ticker_diffs(&goal, &actual) {
            Err(e) => {
                proof {
                    lemma_first_unbudgeted_exists(goal.tickers@, actual.tickers@);
                    let i = choose|i: int| is_first_unbudgeted(goal.tickers@, actual.tickers@, i);
                    assert(actual.tickers@[i] == with_percent(h[i], actual.total_value));
                    assert forall|j: int| 0 <= j < i implies has_goal(goal.tickers@, #[trigger] h[j].symbol@) by {
                        assert(actual.tickers@[j].symbol@ == h[j].symbol@);
                    }
                    assert(is_first_unbudgeted(goal.tickers@, h, i));
                    let k = choose|k: int| is_first_unbudgeted(goal.tickers@, h, k);
                    assert(k == i);
                }
                return Err(e);
            },
            Ok(v) => v,
        };
        proof {
            lemma_diff_symbols_catalogued(goal, actual, tickers@);
        }
        let action = allocation_decision(
            goal.goal_stock_percent,
            actual.actual_stock_percent,
            goal.deviation_percent,
        );
        Ok(Portfolio {
            name,
            current_detail: PortfolioDetail { goal, actual },
            past_detail: Vec::new(),
            tickers,
            tickers_diff: diffs,
            portfolio_action: action,
        })
    }

    /// Replaces the goal and the holdings and derives everything anew against
    /// the same catalog; the snapshot it replaces is appended to the history.
    /// On failure the portfolio is left as it was.
    pub fn update(&mut self, goal: PortfolioGoal, holdings: Vec<TickerActual>) -> (r: Result<(), PortfolioError>)
        requires
            old(self).wf(),
            goal_symbols_distinct(goal.tickers@),
            actual_symbols_distinct(holdings@),
            total_of(holdings@) <= u64::MAX,
        ensures
            match r {
                Ok(()) => {
                    &&& build_error(old(self).tickers@, goal, holdings@) is None
                    &&& built_from(*final(self), old(self).name, old(self).tickers@, goal, holdings@)
                    &&& final(self).past_detail@ == old(self).past_detail@.push(old(self).current_detail)
                },
                Err(e) => {
                    &&& build_error(old(self).tickers@, goal, holdings@) == Some(e)
                    &&& *final(self) == *old(self)
                },
            },
    {
        let catalog = copy_catalog(&self.tickers);
        match Portfolio::new(self.name.clone(), catalog, goal, holdings) {
            Err(e) => Err(e),
            Ok(fresh) => {
                let mut detail = fresh.current_detail;
                std::mem::swap(&mut self.current_detail, &mut detail);
                self.past_detail.push(detail);
                self.tickers_diff = fresh.tickers_diff;
                self.portfolio_action = fresh.portfolio_action;
                Ok(())
            },
        }
    }

    /// The diff engine on the current goal and allocation.
    pub fn calculate_ticker_diff(&self) -> (r: Result<Vec<TickerDiff>, PortfolioError>)
        requires
            goal_symbols_distinct(self.current_detail.goal.tickers@),
            self.current_detail.actual.wf(),
        ensures
            match r {
                Ok(v) => diff_engine(self.current_detail.goal, self.current_detail.actual) == Ok::<
                    Seq<TickerDiff>,
                    PortfolioError,
                >(v@),
                Err(e) => diff_engine(self.current_detail.goal, self.current_detail.actual) == Err::<
                    Seq<TickerDiff>,
                    PortfolioError,
                >(e),
            },
    {
        ticker_diffs(&self.current_detail.goal, &self.current_detail.actual)
    }

    /// The allocation decision on the current goal and allocation.
    pub fn determine_action(&self) -> (r: StockBondAction)
        requires
            self.current_detail.actual.wf(),
        ensures
            r == decision_for(
                self.current_detail.goal.goal_stock_percent,
                self.current_detail.actual.actual_stock_percent,
                self.current_detail.goal.deviation_percent,
            ),
    {
        allocation_decision(
            self.current_detail.goal.goal_stock_percent,
            self.current_detail.actual.actual_stock_percent,
            self.current_detail.goal.deviation_percent,
        )
    }

    /// The holding to buy next.
    pub fn get_buy_next(&self) -> (r: Result<Ticker, PortfolioError>)
        requires
            self.wf(),
        ensures
            r == next_buy(self.tickers_diff@, self.portfolio_action, self.tickers@),
    {
        select_next_buy(&self.tickers_diff, self.portfolio_action, &self.tickers)
    }

    /// The catalog entry of `symbol`.
    pub fn get_ticker(&self, symbol: &String) -> (r: Result<Ticker, PortfolioError>)
        requires
            catalog_symbols_distinct(self.tickers@),
        ensures
            in_catalog(self.tickers@, symbol@) ==> r == Ok::<Ticker, PortfolioError>(
                ticker_for(self.tickers@, symbol@),
            ),
            !in_catalog(self.tickers@, symbol@) ==> r == Err::<Ticker, PortfolioError>(
                PortfolioError::MissingCatalogEntry(*symbol),
            ),
    {
        match find_ticker(&self.tickers, symbol) {
            None => Err(PortfolioError::MissingCatalogEntry(symbol.clone())),
            Some(k) => {
                proof {
                    lemma_ticker_for_index(self.tickers@, k as int);
                }
                Ok(self.tickers[k].copied())
            },
        }
    }
}

/// The selection is a function of the portfolio: two selections on the same
/// portfolio agree.
pub proof fn lemma_buy_next_repeatable(
    p: Portfolio,
    first: Result<Ticker, PortfolioError>,
    second: Result<Ticker, PortfolioError>,
)
    requires
        first == next_buy(p.tickers_diff@, p.portfolio_action, p.tickers@),
        second == next_buy(p.tickers_diff@, p.portfolio_action, p.tickers@),
    ensures
        first == second,
{
}

}
