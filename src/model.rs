use vstd::prelude::*;

verus! {

/// Hundredths of a percent in a whole (100%).
pub const FULL_PERCENT: u32 = 10000;

/// An exact quantity `num / den`. Derived percentages are fractions of
/// hundredths of a percent; `den` is positive for every derived value.
#[derive(Clone, Copy, Debug, PartialEq, Eq, Structural)]
pub struct Fraction {
    pub num: i128,
    pub den: u64,
}

/// The asset class of a holding, as the ticker catalog tags it.
#[derive(Clone, Copy, Debug, PartialEq, Eq, Structural)]
pub enum AssetClass {
    Equity,
    FixedIncome,
}

/// A catalog entry: a symbol, its positive unit price (minor currency units)
/// and its asset class.
#[derive(Clone, Debug)]
pub struct Ticker {
    pub symbol: String,
    pub price: u64,
    pub asset_class: AssetClass,
}

impl Ticker {
    pub fn is_stock(&self) -> (r: bool)
        ensures
            r == (self.asset_class == AssetClass::Equity),
    {
        self.asset_class == AssetClass::Equity
    }

    pub fn is_bond(&self) -> (r: bool)
        ensures
            r == (self.asset_class == AssetClass::FixedIncome),
    {
        self.asset_class == AssetClass::FixedIncome
    }

    /// A field-by-field copy.
    pub fn copied(&self) -> (r: Ticker)
        ensures
            r == *self,
    {
        Ticker { symbol: self.symbol.clone(), price: self.price, asset_class: self.asset_class }
    }
}

/// A target for one holding: its goal percentage (hundredths of a percent) and
/// its place in the display and tie-break order.
#[derive(Clone, Debug)]
pub struct TickerGoal {
    pub symbol: String,
    pub goal_percent: u32,
    pub order: u32,
}

/// The target allocation: one goal per symbol, the target equity share and
/// the tolerance band (both in hundredths of a percent).
#[derive(Clone, Debug)]
pub struct PortfolioGoal {
    pub tickers: Vec<TickerGoal>,
    pub goal_stock_percent: u32,
    pub deviation_percent: u32,
}

/// A current holding: its value (minor currency units), its share count and
/// its derived share of the portfolio's total value.
#[derive(Clone, Debug)]
pub struct TickerActual {
    pub symbol: String,
    pub actual_value: u64,
    pub actual_shares: u32,
    pub actual_percent: Fraction,
}

/// The current allocation with its derived total value and equity share.
#[derive(Clone, Debug)]
pub struct PortfolioActual {
    pub tickers: Vec<TickerActual>,
    pub total_value: u64,
    pub actual_stock_percent: Fraction,
}

/// What to do with one holding.
#[derive(Clone, Copy, Debug, PartialEq, Eq, Structural)]
pub enum TickerAction {
    Buy,
    Sell,
    Hold,
}

/// The gap between a holding's goal and actual share, and the action it calls for.
#[derive(Clone, Debug)]
pub struct TickerDiff {
    pub symbol: String,
    pub goal_minus_actual: Fraction,
    pub action: TickerAction,
    /// Copied from the goal entry; fixes the order in which diffs are listed.
    pub order: u32,
}

/// Which asset class the next purchase should come from.
#[derive(Clone, Copy, Debug, PartialEq, Eq, Structural)]
pub enum StockBondAction {
    BuyStock,
    BuyBond,
    BuyEither,
}

/// The failures of a computation; the symbol names the offending holding.
#[derive(Clone, Debug)]
pub enum PortfolioError {
    DivideByZero,
    MissingCatalogEntry(String),
    MissingGoalEntry(String),
    NoCandidate,
}

/// A goal together with the actual allocation it is compared against.
#[derive(Clone, Debug)]
pub struct PortfolioDetail {
    pub goal: PortfolioGoal,
    pub actual: PortfolioActual,
}

pub open spec fn goal_symbols_distinct(goals: Seq<TickerGoal>) -> bool {
    forall|i: int, j: int|
        0 <= i < goals.len() && 0 <= j < goals.len() && i != j ==> goals[i].symbol@
            != goals[j].symbol@
}

pub open spec fn catalog_symbols_distinct(catalog: Seq<Ticker>) -> bool {
    forall|i: int, j: int|
        0 <= i < catalog.len() && 0 <= j < catalog.len() && i != j ==> catalog[i].symbol@
            != catalog[j].symbol@
}

pub open spec fn actual_symbols_distinct(holdings: Seq<TickerActual>) -> bool {
    forall|i: int, j: int|
        0 <= i < holdings.len() && 0 <= j < holdings.len() && i != j ==> holdings[i].symbol@
            != holdings[j].symbol@
}

pub open spec fn has_goal(goals: Seq<TickerGoal>, sym: Seq<char>) -> bool {
    exists|i: int| 0 <= i < goals.len() && goals[i].symbol@ == sym
}

/// The goal entry of `sym` (meaningful where `has_goal` holds).
pub open spec fn goal_for(goals: Seq<TickerGoal>, sym: Seq<char>) -> TickerGoal {
    goals[choose|i: int| 0 <= i < goals.len() && goals[i].symbol@ == sym]
}

pub open spec fn in_catalog(catalog: Seq<Ticker>, sym: Seq<char>) -> bool {
    exists|i: int| 0 <= i < catalog.len() && catalog[i].symbol@ == sym
}

/// The catalog entry of `sym` (meaningful where `in_catalog` holds).
pub open spec fn ticker_for(catalog: Seq<Ticker>, sym: Seq<char>) -> Ticker {
    catalog[choose|i: int| 0 <= i < catalog.len() && catalog[i].symbol@ == sym]
}

/// Looks a symbol up among the goals; the first entry that carries it.
pub fn find_goal(goals: &Vec<TickerGoal>, sym: &String) -> (r: Option<usize>)
    ensures
        match r {
            Some(i) => i < goals@.len() && goals@[i as int].symbol@ == sym@ && (forall|j: int|
                0 <= j < i ==> goals@[j].symbol@ != sym@),
            None => !has_goal(goals@, sym@),
        },
{
    let mut i: usize = 0;
    while i < goals.len()
        invariant
            i <= goals@.len(),
            forall|j: int| 0 <= j < i ==> goals@[j].symbol@ != sym@,
        decreases goals@.len() - i,
    {
        if goals[i].symbol == *sym {
            return Some(i);
        }
        i = i + 1;
    }
    None
}

/// Looks a symbol up in the catalog; the first entry that carries it.
pub fn find_ticker(catalog: &Vec<Ticker>, sym: &String) -> (r: Option<usize>)
    ensures
        match r {
            Some(i) => i < catalog@.len() && catalog@[i as int].symbol@ == sym@ && (forall|j: int|
                0 <= j < i ==> catalog@[j].symbol@ != sym@),
            None => !in_catalog(catalog@, sym@),
        },
{
    let mut i: usize = 0;
    while i < catalog.len()
        invariant
            i <= catalog@.len(),
            forall|j: int| 0 <= j < i ==> catalog@[j].symbol@ != sym@,
        decreases catalog@.len() - i,
    {
        if catalog[i].symbol == *sym {
            return Some(i);
        }
        i = i + 1;
    }
    None
}

/// With distinct symbols, the entry found is the goal of the symbol.
pub proof fn lemma_goal_for_index(goals: Seq<TickerGoal>, i: int)
    requires
        goal_symbols_distinct(goals),
        0 <= i < goals.len(),
    ensures
        has_goal(goals, goals[i].symbol@),
        goal_for(goals, goals[i].symbol@) == goals[i],
{
    let sym = goals[i].symbol@;
    assert(0 <= i < goals.len() && goals[i].symbol@ == sym);
    let k = choose|k: int| 0 <= k < goals.len() && goals[k].symbol@ == sym;
    assert(k == i);
}

/// With distinct symbols, the entry found is the catalog entry of the symbol.
pub proof fn lemma_ticker_for_index(catalog: Seq<Ticker>, i: int)
    requires
        catalog_symbols_distinct(catalog),
        0 <= i < catalog.len(),
    ensures
        in_catalog(catalog, catalog[i].symbol@),
        ticker_for(catalog, catalog[i].symbol@) == catalog[i],
{
    let sym = catalog[i].symbol@;
    assert(0 <= i < catalog.len() && catalog[i].symbol@ == sym);
    let k = choose|k: int| 0 <= k < catalog.len() && catalog[k].symbol@ == sym;
    assert(k == i);
}

/// A derived share: a positive denominator and at most the whole.
pub open spec fn percent_valid(f: Fraction) -> bool {
    f.den > 0 && 0 <= f.num <= FULL_PERCENT * f.den
}

}
