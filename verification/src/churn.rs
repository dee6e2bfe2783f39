//! Churn: how much the provider count of a country changes from one snapshot to the next.
//!
//! The churn rate is the average size of the changes, in providers per hour. Volatility is about
//! their spread: it goes by the standard deviation of the changes, so that a steady rise is no
//! more volatile than a count that stays.

use vstd::prelude::*;

use crate::models::{fits_i32, Failure, HistoryPoint, HistoryView};
use crate::ranking::views;

verus! {

/// How many points of a country's history its statistics are made from.
pub const STATS_POINTS: i64 = 96;

/// How many points of a country's history its churn is made from.
pub const CHURN_POINTS: i64 = 24;

/// How many snapshots there are in an hour.
pub const SNAPSHOTS_PER_HOUR: i64 = 4;

/// The standard deviation above which a country is of medium volatility.
pub const MEDIUM_CHANGE: i32 = 50;

/// The standard deviation above which a country is of high volatility.
pub const HIGH_CHANGE: i32 = 100;

/// How much a country changes.
#[derive(Debug, PartialEq, Eq, Clone, Copy)]
pub enum Volatility {
    /// There are no two points to compare.
    NotAvailable,
    Low,
    Medium,
    High,
}

impl Volatility {
    /// What the level is called in answers.
    pub open spec fn name(self) -> Seq<char> {
        match self {
            Volatility::NotAvailable => "N/A"@,
            Volatility::Low => "low"@,
            Volatility::Medium => "medium"@,
            Volatility::High => "high"@,
        }
    }

    /// What the level is called in answers.
    pub fn label(&self) -> (label: String)
        ensures
            label@ == self.name(),
    {
        match self {
            Volatility::NotAvailable => "N/A".to_owned(),
            Volatility::Low => "low".to_owned(),
            Volatility::Medium => "medium".to_owned(),
            Volatility::High => "high".to_owned(),
        }
    }
}

/// The churn of a country: its volatility, the sum of the sizes of its changes, and how many
/// changes there are.
#[derive(Debug, PartialEq, Eq, Clone, Copy)]
pub struct Churn {
    pub volatility: Volatility,
    pub total_change: i32,
    pub intervals: usize,
}

impl Churn {
    /// The churn rate in providers per hour, as a numerator and a denominator: the average size of
    /// the changes, of which there are four an hour. Where there are no changes both are zero.
    pub fn hourly_rate(&self) -> (rate: (i64, usize))
        ensures
            rate.0 == 4 * self.total_change,
            rate.1 == self.intervals,
    {
        (SNAPSHOTS_PER_HOUR * self.total_change as i64, self.intervals)
    }
}

/// The churn of a country with the points that it was made from.
#[derive(Debug, PartialEq, Eq)]
pub struct ChurnHistory {
    pub churn: Churn,
    pub data: Vec<HistoryPoint>,
}

/// The change of the count between a point and the next one.
pub open spec fn delta_after(rows: Seq<HistoryView>, i: int) -> int {
    rows[i + 1].count - rows[i].count
}

/// By how much the count changes between a point and the next one, up or down.
pub open spec fn change_after(rows: Seq<HistoryView>, i: int) -> int {
    if delta_after(rows, i) < 0 {
        -delta_after(rows, i)
    } else {
        delta_after(rows, i)
    }
}

/// The sum of the first `n` changes, each with its sign.
pub open spec fn sum_of_deltas(rows: Seq<HistoryView>, n: int) -> int
    decreases n,
{
    if n <= 0 {
        0
    } else {
        sum_of_deltas(rows, n - 1) + delta_after(rows, n - 1)
    }
}

/// The sum of the squares of the first `n` changes.
pub open spec fn sum_of_squares(rows: Seq<HistoryView>, n: int) -> int
    decreases n,
{
    if n <= 0 {
        0
    } else {
        sum_of_squares(rows, n - 1) + delta_after(rows, n - 1) * delta_after(rows, n - 1)
    }
}

/// Whether the standard deviation of the first `n` changes is above a bound. The square of the
/// deviation is `(n * squares - sum * sum) / (n * n)`.
pub open spec fn deviates_more(rows: Seq<HistoryView>, n: int, bound: int) -> bool {
    n * sum_of_squares(rows, n) - sum_of_deltas(rows, n) * sum_of_deltas(rows, n) > (bound * n) * (
    bound * n)
}

/// The sum of the sizes of the first `n` changes.
pub open spec fn total_change(rows: Seq<HistoryView>, n: int) -> int
    decreases n,
{
    if n <= 0 {
        0
    } else {
        total_change(rows, n - 1) + change_after(rows, n - 1)
    }
}

/// The low 32 bits of a change, read as an `i32`.
pub open spec fn narrowed(change: int) -> int {
    if change > i32::MAX {
        change - 0x1_0000_0000
    } else {
        change
    }
}

/// The sum of the low 32 bits of the first `n` changes.
pub open spec fn narrowed_total(rows: Seq<HistoryView>, n: int) -> int
    decreases n,
{
    if n <= 0 {
        0
    } else {
        narrowed_total(rows, n - 1) + narrowed(change_after(rows, n - 1))
    }
}

/// Whether the sum of all changes is an `i32`.
pub open spec fn total_fits(rows: Seq<HistoryView>) -> bool {
    fits_i32(total_change(rows, rows.len() - 1))
}

/// Whether the sum of the low 32 bits of the changes stays an `i32` all along.
pub open spec fn narrowed_totals_fit(rows: Seq<HistoryView>) -> bool {
    forall|n: int| 0 <= n < rows.len() ==> fits_i32(#[trigger] narrowed_total(rows, n))
}

/// The volatility of a history, by the standard deviation of its changes.
pub open spec fn volatility_of(rows: Seq<HistoryView>) -> Volatility {
    if deviates_more(rows, rows.len() - 1, HIGH_CHANGE as int) {
        Volatility::High
    } else if deviates_more(rows, rows.len() - 1, MEDIUM_CHANGE as int) {
        Volatility::Medium
    } else {
        Volatility::Low
    }
}

/// Whether this is the churn of a history with a sum of changes; it is not available with fewer
/// than two points.
pub open spec fn is_churn_of(churn: Churn, rows: Seq<HistoryView>, total: int) -> bool {
    if rows.len() < 2 {
        churn == no_churn()
    } else {
        &&& churn.total_change == total
        &&& churn.intervals == rows.len() - 1
        &&& churn.volatility == volatility_of(rows)
    }
}

/// The churn where there are no two points to compare.
pub open spec fn no_churn() -> Churn {
    Churn { volatility: Volatility::NotAvailable, total_change: 0, intervals: 0 }
}

fn not_available() -> (churn: Churn)
    ensures
        churn == no_churn(),
{
    Churn { volatility: Volatility::NotAvailable, total_change: 0, intervals: 0 }
}

/// The sum of the first changes is the difference between the last and the first of their points.
pub proof fn lemma_sum_of_deltas(rows: Seq<HistoryView>, n: int)
    requires
        0 <= n < rows.len(),
    ensures
        sum_of_deltas(rows, n) == rows[n].count - rows[0].count,
    decreases n,
{
    if 0 < n {
        lemma_sum_of_deltas(rows, n - 1);
    }
}

/// A number between two bounds that differ only in sign has no larger square.
proof fn lemma_square_bound(x: int, bound: int)
    requires
        -bound <= x <= bound,
    ensures
        0 <= x * x <= bound * bound,
{
    assert(0 <= x * x <= bound * bound) by (nonlinear_arith)
        requires
            -bound <= x <= bound,
    ;
}

/// Compares a standard deviation with a bound: `n` changes with a sum of squares and a sum.
fn exceeds(n: u64, squares: u128, sum: i64, bound: u64) -> (above: bool)
    requires
        0 < n,
        0 < bound <= 100,
        -0xffff_ffff <= sum <= 0xffff_ffff,
    ensures
        above == (n * squares - sum * sum > (bound * n) * (bound * n)),
{
    let ghost limit: int = bound * bound * n;
    proof {
        lemma_square_bound(sum as int, 0xffff_ffff);
        assert(0 < bound * bound <= 10000) by (nonlinear_arith)
            requires
                0 < bound <= 100,
        ;
        assert(0 < limit <= 10000 * 0xffff_ffff_ffff_ffff) by (nonlinear_arith)
            requires
                limit == bound * bound * n,
                0 < bound * bound <= 10000,
                0 < n <= 0xffff_ffff_ffff_ffff,
        ;
        // The bound is divided by the number of changes, which it is a multiple of.
        assert((bound * n) * (bound * n) == n * limit) by (nonlinear_arith)
            requires
                limit == bound * bound * n,
        ;
        assert(n * squares - n * limit == n * (squares - limit)) by (nonlinear_arith);
    }
    let scaled: u128 = (bound * bound) as u128 * n as u128;
    assert(scaled == limit);
    if squares <= scaled {
        assert(n * (squares - limit) <= 0) by (nonlinear_arith)
            requires
                0 < n,
                squares <= limit,
        ;
        return false;
    }
    let rest: u128 = squares - scaled;
    assert(rest == squares - limit);
    if rest > 0xffff_ffff_ffff_ffff {
        assert(n * rest >= rest) by (nonlinear_arith)
            requires
                0 < n,
                0 <= rest,
        ;
        return true;
    }
    assert(n * rest <= 0xffff_ffff_ffff_ffff * 0xffff_ffff_ffff_ffff) by (nonlinear_arith)
        requires
            0 < n <= 0xffff_ffff_ffff_ffff,
            0 <= rest <= 0xffff_ffff_ffff_ffff,
    ;
    let squared: u128 = (sum as i128 * sum as i128) as u128;
    n as u128 * rest > squared
}

/// The volatility of a history of two points or more.
fn level_of(history: &Vec<HistoryPoint>) -> (level: Volatility)
    requires
        history@.len() >= 2,
    ensures
        level == volatility_of(views(history@)),
{
    let ghost rows = views(history@);
    let count: usize = history.len();
    let mut squares: u128 = 0;
    let mut i: usize = 0;
    while i < count - 1
        invariant
            count == history@.len(),
            count >= 2,
            rows == views(history@),
            i <= count - 1,
            squares == sum_of_squares(rows, i as int),
            squares <= i * 0xffff_fffe_0000_0001,
        decreases count - i,
    {
        let change: i64 = change_at(history, i);
        proof {
            lemma_square_bound(change as int, 0xffff_ffff);
            let delta = delta_after(rows, i as int);
            assert(change * change == delta * delta) by (nonlinear_arith)
                requires
                    change == delta || change == -delta,
            ;
        }
        squares = squares + change as u128 * change as u128;
        i = i + 1;
    }
    let sum: i64 = history[count - 1].provider_count as i64 - history[0].provider_count as i64;
    proof {
        lemma_sum_of_deltas(rows, count - 1);
    }
    let n: u64 = (count - 1) as u64;
    if exceeds(n, squares, sum, HIGH_CHANGE as u64) {
        Volatility::High
    } else if exceeds(n, squares, sum, MEDIUM_CHANGE as u64) {
        Volatility::Medium
    } else {
        Volatility::Low
    }
}

/// By how much the count changes between a point and the next one.
fn change_at(history: &Vec<HistoryPoint>, i: usize) -> (change: i64)
    requires
        i + 1 < history@.len(),
    ensures
        change == change_after(views(history@), i as int),
        0 <= change < 0x1_0000_0000,
{
    let count: usize = history.len();
    assert(i + 1 < count);
    let next: usize = i + 1;
    let change: i64 = history[next].provider_count as i64 - history[i].provider_count as i64;
    if change < 0 {
        -change
    } else {
        change
    }
}

fn narrow(change: i64) -> (low: i32)
    requires
        0 <= change < 0x1_0000_0000,
    ensures
        low == narrowed(change as int),
{
    if change > i32::MAX as i64 {
        (change - 0x1_0000_0000) as i32
    } else {
        change as i32
    }
}

/// A sum of changes does not fall as changes are added.
proof fn lemma_total_grows(rows: Seq<HistoryView>, n: int, m: int)
    requires
        0 <= n <= m,
    ensures
        0 <= total_change(rows, n) <= total_change(rows, m),
    decreases m,
{
    if 0 < m {
        if n < m {
            lemma_total_grows(rows, n, m - 1);
        } else {
            lemma_total_grows(rows, n - 1, m - 1);
        }
    }
}

/// Decides whether the sum of all changes is an `i32`.
pub fn does_total_fit(history: &Vec<HistoryPoint>) -> (fit: bool)
    ensures
        fit == total_fits(views(history@)),
{
    let ghost rows = views(history@);
    let count: usize = history.len();
    if count < 2 {
        return true;
    }
    let mut total: i64 = 0;
    let mut i: usize = 0;
    while i < count - 1
        invariant
            count == history@.len(),
            count >= 2,
            rows == views(history@),
            i <= count - 1,
            total == total_change(rows, i as int),
            0 <= total <= i32::MAX,
        decreases count - i,
    {
        total = total + change_at(history, i);
        if total > i32::MAX as i64 {
            proof {
                lemma_total_grows(rows, i + 1, count - 1);
            }
            return false;
        }
        i = i + 1;
    }
    true
}

/// Decides whether the sum of the low 32 bits of the changes stays an `i32` all along.
pub fn do_narrowed_totals_fit(history: &Vec<HistoryPoint>) -> (fit: bool)
    ensures
        fit == narrowed_totals_fit(views(history@)),
{
    let ghost rows = views(history@);
    let count: usize = history.len();
    if count < 2 {
        assert forall|n: int| 0 <= n < rows.len() implies fits_i32(
            #[trigger] narrowed_total(rows, n),
        ) by {
            assert(n == 0);
        }
        return true;
    }
    let mut total: i32 = 0;
    let mut i: usize = 0;
    while i < count - 1
        invariant
            count == history@.len(),
            count >= 2,
            rows == views(history@),
            i <= count - 1,
            total == narrowed_total(rows, i as int),
            forall|n: int| 0 <= n <= i ==> fits_i32(#[trigger] narrowed_total(rows, n)),
        decreases count - i,
    {
        match total.checked_add(narrow(change_at(history, i))) {
            Some(sum) => {
                total = sum;
                assert(total == narrowed_total(rows, i + 1));
            },
            None => {
                assert(!fits_i32(narrowed_total(rows, i + 1)));
                return false;
            },
        }
        i = i + 1;
    }
    true
}

/// Takes the reply to the query for the last [`STATS_POINTS`] points of a country's history, and
/// answers. A query that failed counts as one that found nothing.
pub fn api_country_stats(history: Option<Vec<HistoryPoint>>) -> (churn: Churn)
    requires
        history matches Some(points) ==> total_fits(views(points@)),
    ensures
        history is None ==> churn == no_churn(),
        history matches Some(points) ==> is_churn_of(
            churn,
            views(points@),
            total_change(views(points@), points@.len() - 1),
        ),
{
    let history: Vec<HistoryPoint> = match history {
        Some(history) => history,
        None => {
            return not_available();
        },
    };
    let ghost rows = views(history@);
    let count: usize = history.len();
    if count < 2 {
        return not_available();
    }
    let mut total: i32 = 0;
    let mut i: usize = 0;
    while i < count - 1
        invariant
            count == history@.len(),
            count >= 2,
            rows == views(history@),
            total_fits(rows),
            i <= count - 1,
            total == total_change(rows, i as int),
        decreases count - i,
    {
        proof {
            lemma_total_grows(rows, i + 1, count - 1);
            lemma_total_grows(rows, i as int, i + 1);
        }
        total = total + change_at(&history, i) as i32;
        i = i + 1;
    }
    Churn { volatility: level_of(&history), total_change: total, intervals: count - 1 }
}

/// Takes the reply to the query for the last [`CHURN_POINTS`] points of a country's history, and
/// answers.
pub fn api_churn(history: Option<Vec<HistoryPoint>>) -> (answer: Result<ChurnHistory, Failure>)
    requires
        history matches Some(points) ==> narrowed_totals_fit(views(points@)),
    ensures
        history is None <==> answer is Err,
        answer matches Err(failure) ==> failure == Failure::Database,
        answer matches Ok(shown) ==> {
            &&& shown.data == history->0
            &&& is_churn_of(
                shown.churn,
                views(shown.data@),
                narrowed_total(views(shown.data@), shown.data@.len() - 1),
            )
        },
{
    let data: Vec<HistoryPoint> = match history {
        Some(history) => history,
        None => {
            return Err(Failure::Database);
        },
    };
    let ghost rows = views(data@);
    let count: usize = data.len();
    if count < 2 {
        return Ok(ChurnHistory { churn: not_available(), data });
    }
    let mut total: i32 = 0;
    let mut i: usize = 0;
    while i < count - 1
        invariant
            count == data@.len(),
            count >= 2,
            rows == views(data@),
            narrowed_totals_fit(rows),
            i <= count - 1,
            total == narrowed_total(rows, i as int),
        decreases count - i,
    {
        assert(fits_i32(narrowed_total(rows, i + 1)));
        total = total + narrow(change_at(&data, i));
        i = i + 1;
    }
    let churn: Churn = Churn {
        volatility: level_of(&data),
        total_change: total,
        intervals: count - 1,
    };
    Ok(ChurnHistory { churn, data })
}

/// Where the sum of the changes is an `i32`, the sum of their low 32 bits is the same all along.
pub proof fn lemma_totals_agree(rows: Seq<HistoryView>, n: int)
    requires
        total_fits(rows),
        0 <= n < rows.len(),
    ensures
        narrowed_total(rows, n) == total_change(rows, n),
        fits_i32(narrowed_total(rows, n)),
    decreases n,
{
    lemma_total_grows(rows, n, rows.len() - 1);
    if 0 < n {
        lemma_totals_agree(rows, n - 1);
        lemma_total_grows(rows, n - 1, n);
    }
}

/// On every history that statistics can be made from, a country's churn can be made from it too,
/// and both are the same.
pub proof fn lemma_churn_agrees(rows: Seq<HistoryView>, stats: Churn, churn: Churn)
    requires
        total_fits(rows),
    ensures
        narrowed_totals_fit(rows),
        is_churn_of(stats, rows, total_change(rows, rows.len() - 1)) && is_churn_of(
            churn,
            rows,
            narrowed_total(rows, rows.len() - 1),
        ) ==> stats == churn,
{
    assert forall|n: int| 0 <= n < rows.len() implies fits_i32(
        #[trigger] narrowed_total(rows, n),
    ) by {
        lemma_totals_agree(rows, n);
    }
    if rows.len() > 0 {
        lemma_totals_agree(rows, rows.len() - 1);
    }
}

/// Volatility goes by how the changes are spread, not by how large they are: a history with the
/// same change throughout is of low volatility, whatever that change is.
pub proof fn lemma_steady_is_low(rows: Seq<HistoryView>, step: int)
    requires
        rows.len() >= 2,
        forall|i: int| 0 <= i < rows.len() - 1 ==> #[trigger] delta_after(rows, i) == step,
    ensures
        volatility_of(rows) == Volatility::Low,
{
    let n: int = rows.len() - 1;
    lemma_steady_sums(rows, step, n);
    let spread = n * sum_of_squares(rows, n) - sum_of_deltas(rows, n) * sum_of_deltas(rows, n);
    assert(spread == 0) by {
        assert(n * (n * (step * step)) == (n * step) * (n * step)) by (nonlinear_arith);
    }
    lemma_square_bound(HIGH_CHANGE * n, HIGH_CHANGE * n);
    lemma_square_bound(MEDIUM_CHANGE * n, MEDIUM_CHANGE * n);
}

proof fn lemma_steady_sums(rows: Seq<HistoryView>, step: int, n: int)
    requires
        0 <= n < rows.len(),
        forall|i: int| 0 <= i < rows.len() - 1 ==> #[trigger] delta_after(rows, i) == step,
    ensures
        sum_of_deltas(rows, n) == n * step,
        sum_of_squares(rows, n) == n * (step * step),
    decreases n,
{
    if 0 < n {
        lemma_steady_sums(rows, step, n - 1);
        assert(delta_after(rows, n - 1) == step);
        assert((n - 1) * step + step == n * step) by (nonlinear_arith);
        assert((n - 1) * (step * step) + step * step == n * (step * step)) by (nonlinear_arith);
    } else {
        assert(n * step == 0 && n * (step * step) == 0) by (nonlinear_arith)
            requires
                n == 0,
        ;
    }
}

/// A sum over numbers, one by one.
proof fn lemma_sum_step(numbers: Seq<int>, add_up: spec_fn(int, int) -> int)
    requires
        numbers.len() > 0,
    ensures
        numbers.fold_left(0, add_up) == add_up(
            numbers.drop_last().fold_left(0, add_up),
            numbers.last(),
        ),
{
}

/// The sizes of the changes add up to the total, all of them.
pub proof fn lemma_total_is_sum(points: Seq<HistoryPoint>, n: nat)
    requires
        n < points.len(),
    ensures
        total_change(views(points), n as int) == Seq::new(
            n,
            |i: int|
                if points[i + 1].provider_count >= points[i].provider_count {
                    points[i + 1].provider_count - points[i].provider_count
                } else {
                    points[i].provider_count - points[i + 1].provider_count
                },
        ).fold_left(0int, |sum: int, change: int| sum + change),
    decreases n,
{
    let size = |i: int|
        if points[i + 1].provider_count >= points[i].provider_count {
            points[i + 1].provider_count - points[i].provider_count
        } else {
            points[i].provider_count - points[i + 1].provider_count
        };
    let all = Seq::new(n, size);
    if n > 0 {
        lemma_total_is_sum(points, (n - 1) as nat);
        let fewer = Seq::new((n - 1) as nat, size);
        assert(all.drop_last() =~= fewer);
        lemma_sum_step(all, |sum: int, change: int| sum + change);
        assert(views(points)[n as int] == points[n as int]@);
        assert(views(points)[n - 1] == points[n - 1]@);
    }
}

/// Where all changes have the same size, the total is that size as often as there are changes.
pub proof fn lemma_total_of_equal_sizes(points: Seq<HistoryPoint>, size: int, n: nat)
    requires
        n < points.len(),
        forall|i: int|
            0 <= i < n ==> (#[trigger] points[i + 1]).provider_count - points[i].provider_count
                == size || points[i].provider_count - points[i + 1].provider_count == size,
        size >= 0,
    ensures
        total_change(views(points), n as int) == n * size,
    decreases n,
{
    if n > 0 {
        lemma_total_of_equal_sizes(points, size, (n - 1) as nat);
        assert(points[n - 1 + 1].provider_count - points[n - 1].provider_count == size
            || points[n - 1].provider_count - points[n - 1 + 1].provider_count == size);
        assert(views(points)[n as int] == points[n as int]@);
        assert(views(points)[n - 1] == points[n - 1]@);
        assert((n - 1) * size + size == n * size) by (nonlinear_arith);
    } else {
        assert(n * size == 0) by (nonlinear_arith)
            requires
                n == 0,
        ;
    }
}

/// The total is at least the difference between the last and the first count, and just that on a
/// history that only rises and on one that only falls.
pub proof fn lemma_total_and_ends(points: Seq<HistoryPoint>, n: nat)
    requires
        n < points.len(),
    ensures
        total_change(views(points), n as int) >= points[n as int].provider_count
            - points[0].provider_count,
        total_change(views(points), n as int) >= points[0].provider_count
            - points[n as int].provider_count,
        (forall|i: int|
            0 <= i < n ==> points[i].provider_count <= (#[trigger] points[i + 1]).provider_count)
            ==> total_change(views(points), n as int) == points[n as int].provider_count
            - points[0].provider_count,
        (forall|i: int|
            0 <= i < n ==> points[i].provider_count >= (#[trigger] points[i + 1]).provider_count)
            ==> total_change(views(points), n as int) == points[0].provider_count
            - points[n as int].provider_count,
    decreases n,
{
    if n > 0 {
        lemma_total_and_ends(points, (n - 1) as nat);
        assert(views(points)[n as int] == points[n as int]@);
        assert(views(points)[n - 1] == points[n - 1]@);
        assert(points[n - 1 + 1] == points[n as int]);
    }
}

/// The total of a history is the total of its points up to any point, and then that of its points
/// from there on.
pub proof fn lemma_total_splits(points: Seq<HistoryPoint>, at: int, n: int)
    requires
        0 <= at <= n < points.len(),
    ensures
        total_change(views(points), n) == total_change(views(points.take(at + 1)), at)
            + total_change(views(points.skip(at)), n - at),
    decreases n,
{
    let before = points.take(at + 1);
    let after = points.skip(at);
    if at < n {
        lemma_total_splits(points, at, n - 1);
        assert(views(points)[n] == views(after)[n - at]);
        assert(views(points)[n - 1] == views(after)[n - at - 1]);
    } else {
        lemma_total_of_prefix(points, at, at);
        assert(total_change(views(after), 0) == 0);
    }
}

/// The total up to a point does not depend on later points.
proof fn lemma_total_of_prefix(points: Seq<HistoryPoint>, at: int, n: int)
    requires
        0 <= n <= at < points.len(),
    ensures
        total_change(views(points), n) == total_change(views(points.take(at + 1)), n),
    decreases n,
{
    if n > 0 {
        lemma_total_of_prefix(points, at, n - 1);
        let before = points.take(at + 1);
        assert(views(points)[n] == views(before)[n]);
        assert(views(points)[n - 1] == views(before)[n - 1]);
    }
}

/// Each change counts in the second sum as the `i32` that differs from it by a multiple of the
/// number of all `i32`.
pub proof fn lemma_narrowed(change: int)
    requires
        0 <= change < 0x1_0000_0000,
    ensures
        -0x8000_0000 <= narrowed(change) <= 0x7fff_ffff,
        narrowed(change) == change || narrowed(change) == change - 0x1_0000_0000,
{
}

/// The second sum is over all changes as well: every further point adds its own change.
pub proof fn lemma_narrowed_total_is_sum(points: Seq<HistoryPoint>, n: nat)
    requires
        n < points.len(),
    ensures
        narrowed_total(views(points), n as int) == Seq::new(
            n,
            |i: int|
                {
                    let change = if points[i + 1].provider_count >= points[i].provider_count {
                        points[i + 1].provider_count - points[i].provider_count
                    } else {
                        points[i].provider_count - points[i + 1].provider_count
                    };
                    if change >= 0x8000_0000 {
                        change - 0x1_0000_0000
                    } else {
                        change
                    }
                },
        ).fold_left(0int, |sum: int, change: int| sum + change),
    decreases n,
{
    let low = |i: int|
        {
            let change = if points[i + 1].provider_count >= points[i].provider_count {
                points[i + 1].provider_count - points[i].provider_count
            } else {
                points[i].provider_count - points[i + 1].provider_count
            };
            if change >= 0x8000_0000 {
                change - 0x1_0000_0000
            } else {
                change
            }
        };
    let all = Seq::new(n, low);
    if n > 0 {
        lemma_narrowed_total_is_sum(points, (n - 1) as nat);
        let fewer = Seq::new((n - 1) as nat, low);
        assert(all.drop_last() =~= fewer);
        lemma_sum_step(all, |sum: int, change: int| sum + change);
        assert(views(points)[n as int] == points[n as int]@);
        assert(views(points)[n - 1] == points[n - 1]@);
    }
}

/// The squares of all changes add up.
pub proof fn lemma_squares_are_sum(points: Seq<HistoryPoint>, n: nat)
    requires
        n < points.len(),
    ensures
        sum_of_squares(views(points), n as int) == Seq::new(
            n,
            |i: int|
                (points[i + 1].provider_count - points[i].provider_count) * (points[i
                    + 1].provider_count - points[i].provider_count),
        ).fold_left(0int, |sum: int, square: int| sum + square),
    decreases n,
{
    let square = |i: int|
        (points[i + 1].provider_count - points[i].provider_count) * (points[i + 1].provider_count
            - points[i].provider_count);
    let all = Seq::new(n, square);
    if n > 0 {
        lemma_squares_are_sum(points, (n - 1) as nat);
        let fewer = Seq::new((n - 1) as nat, square);
        assert(all.drop_last() =~= fewer);
        lemma_sum_step(all, |sum: int, square: int| sum + square);
        assert(views(points)[n as int] == points[n as int]@);
        assert(views(points)[n - 1] == points[n - 1]@);
    }
}

/// What is shown of a history: with fewer than two points nothing, and else one interval less than
/// there are points, and the volatility by the standard deviation of all changes. That is above a
/// bound where `n` times the sum of their squares, less the square of the difference between the
/// last and the first count, is above the square of `n` times the bound.
pub proof fn lemma_churn_shown(points: Seq<HistoryPoint>, churn: Churn, total: int)
    requires
        is_churn_of(churn, views(points), total),
    ensures
        points.len() < 2 ==> churn.volatility == Volatility::NotAvailable && churn.total_change == 0
            && churn.intervals == 0,
        points.len() >= 2 ==> {
            let n = points.len() - 1;
            let rise = points[n].provider_count - points[0].provider_count;
            let squares = Seq::new(
                n as nat,
                |i: int|
                    (points[i + 1].provider_count - points[i].provider_count) * (points[i
                        + 1].provider_count - points[i].provider_count),
            ).fold_left(0int, |sum: int, square: int| sum + square);
            let spread = n * squares - rise * rise;
            &&& churn.total_change == total
            &&& churn.intervals == n
            &&& churn.volatility == Volatility::High <==> spread > (100 * n) * (100 * n)
            &&& churn.volatility == Volatility::Medium <==> (50 * n) * (50 * n) < spread <= (100
                * n) * (100 * n)
            &&& churn.volatility == Volatility::Low <==> spread <= (50 * n) * (50 * n)
        },
{
    if points.len() >= 2 {
        let n = points.len() - 1;
        lemma_squares_are_sum(points, n as nat);
        lemma_sum_of_deltas(views(points), n);
        assert(views(points)[n] == points[n]@);
        assert(views(points)[0] == points[0]@);
        assert((50 * n) * (50 * n) <= (100 * n) * (100 * n)) by (nonlinear_arith)
            requires
                n >= 0,
        ;
    }
}

/// Statistics can be made just where the sum of the sizes of all changes is at most the largest
/// `i32`.
pub proof fn lemma_total_fits(points: Seq<HistoryPoint>)
    requires
        points.len() > 0,
    ensures
        total_fits(views(points)) <==> total_change(views(points), points.len() - 1) <= 0x7fff_ffff,
{
    lemma_total_grows(views(points), 0, points.len() - 1);
}

/// Churn can be shown just where the second sum is an `i32` at every point.
pub proof fn lemma_narrowed_totals_fit(points: Seq<HistoryPoint>)
    ensures
        narrowed_totals_fit(views(points)) <==> forall|n: int|
            0 <= n < points.len() ==> -0x8000_0000 <= #[trigger] narrowed_total(views(points), n)
                <= 0x7fff_ffff,
{
}

}
