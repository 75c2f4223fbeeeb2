use vstd::prelude::*;
use crate::model::{
    actual_symbols_distinct, catalog_symbols_distinct, find_ticker, in_catalog, lemma_ticker_for_index,
    ticker_for, percent_valid, AssetClass, Fraction, PortfolioActual, PortfolioError, Ticker, TickerActual,
    FULL_PERCENT,
};

verus! {

/// The sum of the holdings' values.
pub open spec fn total_of(s: Seq<TickerActual>) -> int
    decreases s.len(),
{
    if s.len() == 0 {
        0
    } else {
        total_of(s.drop_last()) + s.last().actual_value
    }
}

/// The sum of the values of the holdings that the catalog tags as equity.
pub open spec fn equity_value_of(s: Seq<TickerActual>, catalog: Seq<Ticker>) -> int
    decreases s.len(),
{
    if s.len() == 0 {
        0
    } else {
        equity_value_of(s.drop_last(), catalog) + if ticker_for(catalog, s.last().symbol@).asset_class
            == AssetClass::Equity {
            s.last().actual_value as int
        } else {
            0
        }
    }
}

/// `value` as a share of `total`, in hundredths of a percent.
pub open spec fn percent_of(value: int, total: int) -> Fraction {
    Fraction { num: (FULL_PERCENT * value) as i128, den: total as u64 }
}

/// The holding with its share of `total` filled in.
pub open spec fn with_percent(t: TickerActual, total: u64) -> TickerActual {
    TickerActual {
        symbol: t.symbol,
        actual_value: t.actual_value,
        actual_shares: t.actual_shares,
        actual_percent: percent_of(t.actual_value as int, total as int),
    }
}

/// The sum of the numerators of the holdings' shares.
pub open spec fn percent_num_sum(s: Seq<TickerActual>) -> int
    decreases s.len(),
{
    if s.len() == 0 {
        0
    } else {
        percent_num_sum(s.drop_last()) + s.last().actual_percent.num
    }
}

impl TickerActual {
    /// A holding as the data source reports it, its share not yet derived.
    pub fn new(symbol: String, actual_value: u64, actual_shares: u32) -> (r: TickerActual)
        ensures
            r.symbol == symbol,
            r.actual_value == actual_value,
            r.actual_shares == actual_shares,
            r.actual_percent == (Fraction { num: 0, den: 1 }),
    {
        TickerActual { symbol, actual_value, actual_shares, actual_percent: Fraction { num: 0, den: 1 } }
    }

    /// Fills in the holding's share of a portfolio worth `total_value`.
    pub fn update_actual_percent(self, total_value: u64) -> (r: Result<TickerActual, PortfolioError>)
        ensures
            total_value == 0 ==> (r matches Err(PortfolioError::DivideByZero)),
            total_value > 0 ==> r == Ok::<TickerActual, PortfolioError>(with_percent(self, total_value)),
    {
        if total_value == 0 {
            return Err(PortfolioError::DivideByZero);
        }
        let num: i128 = 10000 * (self.actual_value as i128);
        Ok(TickerActual {
            symbol: self.symbol,
            actual_value: self.actual_value,
            actual_shares: self.actual_shares,
            actual_percent: Fraction { num, den: total_value },
        })
    }
}

impl PortfolioActual {
    /// The derived fields agree with the holdings, whose symbols are distinct.
    pub open spec fn wf(&self) -> bool {
        &&& actual_symbols_distinct(self.tickers@)
        &&& self.total_value == total_of(self.tickers@)
        &&& self.total_value > 0
        &&& forall|i: int|
            0 <= i < self.tickers@.len() ==> #[trigger] self.tickers@[i].actual_percent
                == percent_of(self.tickers@[i].actual_value as int, self.total_value as int)
        &&& self.actual_stock_percent.den == self.total_value
        &&& 0 <= self.actual_stock_percent.num <= FULL_PERCENT * self.total_value
    }

    /// Every holding is in the catalog, and the equity share is the one the
    /// catalog's tags give.
    pub open spec fn covered_by(&self, catalog: Seq<Ticker>) -> bool {
        &&& forall|i: int|
            0 <= i < self.tickers@.len() ==> in_catalog(catalog, #[trigger] self.tickers@[i].symbol@)
        &&& self.actual_stock_percent == percent_of(
            equity_value_of(self.tickers@, catalog),
            self.total_value as int,
        )
    }

    /// Derives the total value, each holding's share and the equity share.
    pub fn new(tickers: Vec<TickerActual>, catalog: &Vec<Ticker>) -> (r: Result<
        PortfolioActual,
        PortfolioError,
    >)
        requires
            actual_symbols_distinct(tickers@),
            catalog_symbols_distinct(catalog@),
            total_of(tickers@) <= u64::MAX,
        ensures
            total_of(tickers@) == 0 ==> (r matches Err(PortfolioError::DivideByZero)),
            total_of(tickers@) > 0 ==> match r {
                Err(e) => exists|i: int|
                    0 <= i < tickers@.len() && !in_catalog(catalog@, tickers@[i].symbol@) && (
                    forall|j: int| 0 <= j < i ==> in_catalog(catalog@, #[trigger] tickers@[j].symbol@))
                        && e == PortfolioError::MissingCatalogEntry(tickers@[i].symbol),
                Ok(a) => {
                    &&& a.wf()
                    &&& a.covered_by(catalog@)
                    &&& a.tickers@.len() == tickers@.len()
                    &&& forall|i: int|
                        0 <= i < tickers@.len() ==> #[trigger] a.tickers@[i] == with_percent(
                            tickers@[i],
                            a.total_value,
                        )
                },
            },
    {
        let total = calculate_total(&tickers);
        if total == 0 {
            return Err(PortfolioError::DivideByZero);
        }
        let mut out: Vec<TickerActual> = Vec::new();
        let mut equity: u64 = 0;
        let mut i: usize = 0;
        while i < tickers.len()
            invariant
                i <= tickers@.len(),
                total == total_of(tickers@),
                total > 0,
                catalog_symbols_distinct(catalog@),
                equity == equity_value_of(tickers@.take(i as int), catalog@),
                out@.len() == i,
                forall|j: int| 0 <= j < i ==> in_catalog(catalog@, #[trigger] tickers@[j].symbol@),
                forall|j: int| 0 <= j < i ==> #[trigger] out@[j] == with_percent(tickers@[j], total),
            decreases tickers@.len() - i,
        {
            let t = &tickers[i];
            proof {
                lemma_equity_le_total(tickers@.take(i as int + 1), catalog@);
                lemma_total_take_le(tickers@, i as int + 1);
                assert(tickers@.take(i as int + 1).drop_last() =~= tickers@.take(i as int));
            }
            match find_ticker(catalog, &t.symbol) {
                None => {
                    return Err(PortfolioError::MissingCatalogEntry(t.symbol.clone()));
                },
                Some(k) => {
                    proof {
                        lemma_ticker_for_index(catalog@, k as int);
                    }
                    if catalog[k].is_stock() {
                        equity = equity + t.actual_value;
                    }
                },
            }
            let num: i128 = 10000 * (t.actual_value as i128);
            out.push(
                TickerActual {
                    symbol: t.symbol.clone(),
                    actual_value: t.actual_value,
                    actual_shares: t.actual_shares,
                    actual_percent: Fraction { num, den: total },
                },
            );
            i = i + 1;
        }
        proof {
            assert(tickers@.take(tickers@.len() as int) =~= tickers@);
            lemma_equity_le_total(tickers@, catalog@);
            assert forall|a: int, b: int|
                0 <= a < out@.len() && 0 <= b < out@.len() && a != b implies out@[a].symbol@
                != out@[b].symbol@ by {
                assert(out@[a] == with_percent(tickers@[a], total));
                assert(out@[b] == with_percent(tickers@[b], total));
            }
            lemma_total_with_percent(tickers@, out@, total, catalog@);
        }
        let stock: i128 = 10000 * (equity as i128);
        Ok(PortfolioActual { tickers: out, total_value: total, actual_stock_percent: Fraction { num: stock, den: total } })
    }
}

/// The sum of the holdings' values.
fn calculate_total(tickers: &Vec<TickerActual>) -> (r: u64)
    requires
        total_of(tickers@) <= u64::MAX,
    ensures
        r == total_of(tickers@),
{
    let mut total: u64 = 0;
    let mut i: usize = 0;
    while i < tickers.len()
        invariant
            i <= tickers@.len(),
            total == total_of(tickers@.take(i as int)),
            total_of(tickers@) <= u64::MAX,
        decreases tickers@.len() - i,
    {
        proof {
            lemma_total_take_le(tickers@, i as int + 1);
            assert(tickers@.take(i as int + 1).drop_last() =~= tickers@.take(i as int));
        }
        total = total + tickers[i].actual_value;
        i = i + 1;
    }
    assert(tickers@.take(tickers@.len() as int) =~= tickers@);
    total
}

proof fn lemma_total_take_le(s: Seq<TickerActual>, i: int)
    requires
        0 <= i <= s.len(),
    ensures
        0 <= total_of(s.take(i)) <= total_of(s),
    decreases s.len(),
{
    if i == s.len() {
        assert(s.take(i) =~= s);
        lemma_total_nonneg(s);
    } else {
        assert(s.take(i) =~= s.drop_last().take(i));
        lemma_total_take_le(s.drop_last(), i);
    }
}

/// A sum of values is never negative.
pub proof fn lemma_total_nonneg(s: Seq<TickerActual>)
    ensures
        total_of(s) >= 0,
    decreases s.len(),
{
    if s.len() > 0 {
        lemma_total_nonneg(s.drop_last());
    }
}

proof fn lemma_equity_le_total(s: Seq<TickerActual>, catalog: Seq<Ticker>)
    ensures
        0 <= equity_value_of(s, catalog) <= total_of(s),
    decreases s.len(),
{
    if s.len() > 0 {
        lemma_equity_le_total(s.drop_last(), catalog);
    }
}

proof fn lemma_total_with_percent(
    s: Seq<TickerActual>,
    t: Seq<TickerActual>,
    total: u64,
    catalog: Seq<Ticker>,
)
    requires
        s.len() == t.len(),
        forall|j: int| 0 <= j < s.len() ==> #[trigger] t[j] == with_percent(s[j], total),
    ensures
        total_of(t) == total_of(s),
        equity_value_of(t, catalog) == equity_value_of(s, catalog),
    decreases s.len(),
{
    if s.len() > 0 {
        assert(t.last() == with_percent(s.last(), total));
        lemma_total_with_percent(s.drop_last(), t.drop_last(), total, catalog);
    }
}

proof fn lemma_percent_sum(s: Seq<TickerActual>, total: u64)
    requires
        forall|j: int|
            0 <= j < s.len() ==> #[trigger] s[j].actual_percent == percent_of(
                s[j].actual_value as int,
                total as int,
            ),
    ensures
        percent_num_sum(s) == FULL_PERCENT * total_of(s),
    decreases s.len(),
{
    if s.len() > 0 {
        assert(s.last().actual_percent == percent_of(s.last().actual_value as int, total as int));
        lemma_percent_sum(s.drop_last(), total);
    }
}

/// The holdings' shares add up to the whole: every share is a fraction over
/// the total value, and their numerators sum to a full 100% of it.
pub proof fn lemma_percents_sum_to_whole(a: PortfolioActual)
    requires
        a.wf(),
    ensures
        forall|i: int| 0 <= i < a.tickers@.len() ==> #[trigger] a.tickers@[i].actual_percent.den == a.total_value,
        percent_num_sum(a.tickers@) == FULL_PERCENT * a.total_value,
{
    lemma_percent_sum(a.tickers@, a.total_value);
}

proof fn lemma_value_le_total(s: Seq<TickerActual>, i: int)
    requires
        0 <= i < s.len(),
    ensures
        s[i].actual_value <= total_of(s),
    decreases s.len(),
{
    lemma_total_nonneg(s.drop_last());
    if i < s.len() - 1 {
        lemma_value_le_total(s.drop_last(), i);
    }
}

/// In a well-formed allocation every holding's share lies between none and the whole.
pub proof fn lemma_percents_valid(a: PortfolioActual)
    requires
        a.wf(),
    ensures
        forall|i: int| 0 <= i < a.tickers@.len() ==> percent_valid(#[trigger] a.tickers@[i].actual_percent),
{
    assert forall|i: int| 0 <= i < a.tickers@.len() implies percent_valid(#[trigger] a.tickers@[i].actual_percent) by {
        lemma_value_le_total(a.tickers@, i);
    }
}

}
