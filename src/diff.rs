use vstd::prelude::*;
use crate::actual::lemma_percents_valid;
use crate::model::{
    find_goal, goal_for, goal_symbols_distinct, has_goal, lemma_goal_for_index, percent_valid,
    Fraction, PortfolioActual, PortfolioError, PortfolioGoal, TickerAction, TickerActual,
    TickerDiff, TickerGoal,
};

verus! {

/// The action for a gap of `num / den` (with `den` positive) against a
/// tolerance band of `deviation`: the band is exclusive, so a gap exactly on
/// its edge is held.
pub open spec fn action_for(num: int, den: int, deviation: int) -> TickerAction {
    if num < 0 && -num > deviation * den {
        TickerAction::Sell
    } else if num > 0 && num > deviation * den {
        TickerAction::Buy
    } else {
        TickerAction::Hold
    }
}

/// The numerator of `goal - actual` over the denominator of `actual`.
pub open spec fn gap_num(goal: u32, actual: Fraction) -> int {
    goal * actual.den - actual.num
}

/// The diff of a holding against its goal entry.
pub open spec fn diff_of(a: TickerActual, g: TickerGoal, deviation: u32) -> TickerDiff {
    TickerDiff {
        symbol: a.symbol,
        goal_minus_actual: Fraction {
            num: gap_num(g.goal_percent, a.actual_percent) as i128,
            den: a.actual_percent.den,
        },
        action: action_for(gap_num(g.goal_percent, a.actual_percent), a.actual_percent.den as int, deviation as int),
        order: g.order,
    }
}

/// `d` placed after every entry of the sorted `s` whose order is not above its own.
pub open spec fn insert_by_order(s: Seq<TickerDiff>, d: TickerDiff) -> Seq<TickerDiff>
    decreases s.len(),
{
    if s.len() == 0 {
        seq![d]
    } else if s.last().order <= d.order {
        s.push(d)
    } else {
        insert_by_order(s.drop_last(), d).push(s.last())
    }
}

/// `s` sorted ascending by order; entries of equal order keep their relative order.
pub open spec fn sort_by_order(s: Seq<TickerDiff>) -> Seq<TickerDiff>
    decreases s.len(),
{
    if s.len() == 0 {
        s
    } else {
        insert_by_order(sort_by_order(s.drop_last()), s.last())
    }
}

pub open spec fn sorted_by_order(s: Seq<TickerDiff>) -> bool {
    forall|i: int, j: int| 0 <= i < j < s.len() ==> s[i].order <= s[j].order
}

/// Every holding has a goal entry.
pub open spec fn all_budgeted(goals: Seq<TickerGoal>, holdings: Seq<TickerActual>) -> bool {
    forall|i: int| 0 <= i < holdings.len() ==> has_goal(goals, #[trigger] holdings[i].symbol@)
}

/// `i` is the first holding without a goal entry.
pub open spec fn is_first_unbudgeted(goals: Seq<TickerGoal>, holdings: Seq<TickerActual>, i: int) -> bool {
    &&& 0 <= i < holdings.len()
    &&& !has_goal(goals, holdings[i].symbol@)
    &&& forall|j: int| 0 <= j < i ==> has_goal(goals, #[trigger] holdings[j].symbol@)
}

/// The diffs of the holdings, in the holdings' order.
pub open spec fn diffs_unsorted(goal: PortfolioGoal, holdings: Seq<TickerActual>) -> Seq<TickerDiff> {
    Seq::new(
        holdings.len(),
        |i: int| diff_of(holdings[i], goal_for(goal.tickers@, holdings[i].symbol@), goal.deviation_percent),
    )
}

/// What the diff engine yields: the diffs sorted by order, or the first
/// holding that has no goal entry.
pub open spec fn diff_engine(goal: PortfolioGoal, actual: PortfolioActual) -> Result<Seq<TickerDiff>, PortfolioError> {
    if all_budgeted(goal.tickers@, actual.tickers@) {
        Ok(sort_by_order(diffs_unsorted(goal, actual.tickers@)))
    } else {
        Err(
            PortfolioError::MissingGoalEntry(
                actual.tickers@[choose|i: int| is_first_unbudgeted(goal.tickers@, actual.tickers@, i)].symbol,
            ),
        )
    }
}

impl TickerDiff {
    /// Compares a holding with its goal entry.
    pub fn new(actual_tic: &TickerActual, goal_tic: &TickerGoal, deviation_percent: u32) -> (r: TickerDiff)
        requires
            percent_valid(actual_tic.actual_percent),
        ensures
            r == diff_of(*actual_tic, *goal_tic, deviation_percent),
    {
        let den = actual_tic.actual_percent.den;
        proof {
            assert(goal_tic.goal_percent * den <= u32::MAX * u64::MAX) by (nonlinear_arith)
                requires goal_tic.goal_percent <= u32::MAX, den <= u64::MAX;
            assert(deviation_percent * den <= u32::MAX * u64::MAX) by (nonlinear_arith)
                requires deviation_percent <= u32::MAX, den <= u64::MAX;
            assert(0 <= goal_tic.goal_percent * den) by (nonlinear_arith)
                requires goal_tic.goal_percent >= 0, den >= 0;
            assert(0 <= deviation_percent * den) by (nonlinear_arith)
                requires deviation_percent >= 0, den >= 0;
        }
        let goal_num: i128 = (goal_tic.goal_percent as i128) * (den as i128);
        let num: i128 = goal_num - actual_tic.actual_percent.num;
        let band: i128 = (deviation_percent as i128) * (den as i128);
        let action = if num < 0 && -num > band {
            TickerAction::Sell
        } else if num > 0 && num > band {
            TickerAction::Buy
        } else {
            TickerAction::Hold
        };
        TickerDiff {
            symbol: actual_tic.symbol.clone(),
            goal_minus_actual: Fraction { num, den },
            action,
            order: goal_tic.order,
        }
    }

    /// A diff that names no holding: no gap, held, first in order.
    pub fn empty() -> (r: TickerDiff)
        ensures
            r.symbol@ == Seq::<char>::empty(),
            r.goal_minus_actual == (Fraction { num: 0, den: 1 }),
            r.action == TickerAction::Hold,
            r.order == 0,
    {
        TickerDiff {
            symbol: String::new(),
            goal_minus_actual: Fraction { num: 0, den: 1 },
            action: TickerAction::Hold,
            order: 0,
        }
    }

    /// A field-by-field copy.
    pub fn copied(&self) -> (r: TickerDiff)
        ensures
            r == *self,
    {
        TickerDiff {
            symbol: self.symbol.clone(),
            goal_minus_actual: self.goal_minus_actual,
            action: self.action,
            order: self.order,
        }
    }
}

/// Places `d` into the sorted `v` after every entry whose order is not above its own.
fn insert_diff(v: Vec<TickerDiff>, d: TickerDiff) -> (r: Vec<TickerDiff>)
    ensures
        r@ == insert_by_order(v@, d),
    decreases v@.len(),
{
    let mut v = v;
    if v.len() == 0 {
        v.push(d);
        v
    } else if v[v.len() - 1].order <= d.order {
        v.push(d);
        v
    } else {
        let ghost old_v = v@;
        let last = v.pop().unwrap();
        assert(v@ =~= old_v.drop_last());
        let mut r = insert_diff(v, d);
        r.push(last);
        r
    }
}

/// The diff engine: each holding against its goal entry, sorted by order.
pub fn ticker_diffs(goal: &PortfolioGoal, actual: &PortfolioActual) -> (r: Result<Vec<TickerDiff>, PortfolioError>)
    requires
        goal_symbols_distinct(goal.tickers@),
        actual.wf(),
    ensures
        match r {
            Ok(v) => diff_engine(*goal, *actual) == Ok::<Seq<TickerDiff>, PortfolioError>(v@),
            Err(e) => diff_engine(*goal, *actual) == Err::<Seq<TickerDiff>, PortfolioError>(e),
        },
{
    let ghost holdings = actual.tickers@;
    proof {
        lemma_percents_valid(*actual);
    }
    let mut sorted: Vec<TickerDiff> = Vec::new();
    let mut i: usize = 0;
    while i < actual.tickers.len()
        invariant
            i <= holdings.len(),
            holdings == actual.tickers@,
            goal_symbols_distinct(goal.tickers@),
            forall|j: int| 0 <= j < holdings.len() ==> percent_valid(#[trigger] holdings[j].actual_percent),
            forall|j: int| 0 <= j < i ==> has_goal(goal.tickers@, #[trigger] holdings[j].symbol@),
            sorted@ == sort_by_order(diffs_unsorted(*goal, holdings.take(i as int))),
        decreases holdings.len() - i,
    {
        let t = &actual.tickers[i];
        match find_goal(&goal.tickers, &t.symbol) {
            None => {
                proof {
                    assert(is_first_unbudgeted(goal.tickers@, holdings, i as int));
                    assert(!all_budgeted(goal.tickers@, holdings));
                    let k = choose|k: int| is_first_unbudgeted(goal.tickers@, holdings, k);
                    assert(k == i);
                }
                return Err(PortfolioError::MissingGoalEntry(t.symbol.clone()));
            },
            Some(k) => {
                proof {
                    lemma_goal_for_index(goal.tickers@, k as int);
                }
                let d = TickerDiff::new(t, &goal.tickers[k], goal.deviation_percent);
                let ghost prev = diffs_unsorted(*goal, holdings.take(i as int));
                proof {
                    assert(diffs_unsorted(*goal, holdings.take(i as int + 1)) =~= prev.push(d));
                    assert(prev.push(d).drop_last() =~= prev);
                }
                sorted = insert_diff(sorted, d);
                i = i + 1;
            },
        }
    }
    proof {
        assert(holdings.take(holdings.len() as int) =~= holdings);
    }
    Ok(sorted)
}

proof fn lemma_insert_sorted(s: Seq<TickerDiff>, d: TickerDiff)
    requires
        sorted_by_order(s),
    ensures
        sorted_by_order(insert_by_order(s, d)),
        insert_by_order(s, d).to_multiset() == s.to_multiset().insert(d),
        insert_by_order(s, d).len() == s.len() + 1,
    decreases s.len(),
{
    if s.len() == 0 {
        assert(s =~= Seq::<TickerDiff>::empty());
        assert(insert_by_order(s, d) =~= s.push(d));
        s.to_multiset_ensures();
    } else if s.last().order <= d.order {
        s.to_multiset_ensures();
    } else {
        let p = s.drop_last();
        assert(sorted_by_order(p));
        lemma_insert_sorted(p, d);
        let q = insert_by_order(p, d);
        p.to_multiset_ensures();
        q.to_multiset_ensures();
        s.to_multiset_ensures();
        assert forall|k: int| 0 <= k < q.len() implies #[trigger] q[k].order <= s.last().order by {
            assert(q.contains(q[k]));
            assert(q.to_multiset().count(q[k]) > 0);
            if q[k] != d {
                assert(q.to_multiset().count(q[k]) == p.to_multiset().count(q[k]));
                assert(p.to_multiset().count(q[k]) > 0);
                assert(p.contains(q[k]));
                let idx = choose|idx: int| 0 <= idx < p.len() && p[idx] == q[k];
                assert(s[idx] == p[idx]);
            }
        }
        assert(s =~= p.push(s.last()));
        assert(q.push(s.last()).to_multiset() =~= q.to_multiset().insert(s.last()));
        assert(s.to_multiset() =~= p.to_multiset().insert(s.last()));
        assert(q.push(s.last()).to_multiset() =~= s.to_multiset().insert(d));
    }
}

/// The diff order is ascending by `order` and rearranges its input, nothing added or lost.
pub proof fn lemma_sort_by_order(s: Seq<TickerDiff>)
    ensures
        sorted_by_order(sort_by_order(s)),
        sort_by_order(s).to_multiset() == s.to_multiset(),
    decreases s.len(),
{
    if s.len() > 0 {
        lemma_sort_by_order(s.drop_last());
        lemma_insert_sorted(sort_by_order(s.drop_last()), s.last());
        s.drop_last().to_multiset_ensures();
        assert(s =~= s.drop_last().push(s.last()));
    }
}

/// The tolerance band is exclusive: a gap exactly as wide as the band is held.
pub proof fn lemma_threshold_exclusive(num: int, den: int, deviation: int)
    requires
        den > 0,
        deviation >= 0,
        num == deviation * den || -num == deviation * den,
    ensures
        action_for(num, den, deviation) == TickerAction::Hold,
{
}

/// The diff engine is a function of its inputs: two runs on the same goal and
/// allocation agree.
pub proof fn lemma_ticker_diffs_repeatable(
    goal: PortfolioGoal,
    actual: PortfolioActual,
    first: Result<Seq<TickerDiff>, PortfolioError>,
    second: Result<Seq<TickerDiff>, PortfolioError>,
)
    requires
        first == diff_engine(goal, actual),
        second == diff_engine(goal, actual),
    ensures
        first == second,
{
}

/// Where some holding has no goal entry, there is a first such holding.
pub proof fn lemma_first_unbudgeted_exists(goals: Seq<TickerGoal>, holdings: Seq<TickerActual>)
    requires
        !all_budgeted(goals, holdings),
    ensures
        exists|i: int| is_first_unbudgeted(goals, holdings, i),
    decreases holdings.len(),
{
    let p = holdings.drop_last();
    if all_budgeted(goals, p) {
        let i = holdings.len() - 1;
        assert forall|j: int| 0 <= j < i implies has_goal(goals, #[trigger] holdings[j].symbol@) by {
            assert(holdings[j] == p[j]);
        }
        assert(is_first_unbudgeted(goals, holdings, i));
    } else {
        lemma_first_unbudgeted_exists(goals, p);
        let i = choose|i: int| is_first_unbudgeted(goals, p, i);
        assert forall|j: int| 0 <= j < i implies has_goal(goals, #[trigger] holdings[j].symbol@) by {
            assert(holdings[j] == p[j]);
        }
        assert(is_first_unbudgeted(goals, holdings, i));
    }
}

}
