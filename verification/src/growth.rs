//! Projections of the network total.
//!
//! The daily compounded growth that the weighted projection rests on is computed outside; here is
//! decided which projection is made, and the linear one is made.

use vstd::prelude::*;

use crate::clock::{can_move, checked_time_offset, moved_timestamp};
use crate::models::{fits_i32, Failure};
use crate::summary::{pick_total, total_or};

verus! {

/// The minutes of the spans that the projection looks back.
pub const ONE_DAY: i32 = 1440;

pub const THREE_DAYS: i32 = 4320;

pub const SEVEN_DAYS: i32 = 10080;

/// The request once the latest timestamp is known: the totals of all of these times are asked for.
#[derive(Debug, PartialEq, Eq)]
pub struct GrowthLatest {
    pub latest: String,
    pub day_ago: String,
    pub three_days_ago: String,
    pub week_ago: String,
}

/// The replies to the queries for totals; `None` where one failed. A total is itself `None` where
/// there is no snapshot.
#[derive(Debug, PartialEq, Eq, Clone, Copy)]
pub struct GrowthReplies {
    pub current: Option<Option<i32>>,
    pub past_1d: Option<Option<i32>>,
    pub past_3d: Option<Option<i32>>,
    pub past_7d: Option<Option<i32>>,
}

/// A growth rate.
#[derive(Debug, PartialEq, Eq, Clone, Copy)]
pub enum GrowthRate {
    /// A part of the whole, `numerator / denominator`.
    Ratio { numerator: i32, denominator: i32 },
    /// The daily rate of the weighted projection.
    Weighted,
}

/// Projected totals.
#[derive(Debug, PartialEq, Eq)]
pub struct GrowthProjection {
    pub current: i32,
    pub daily_growth: i32,
    pub growth_rate: GrowthRate,
    pub projected_7d: i32,
    pub projected_14d: i32,
    pub projected_30d: i32,
    pub projected_90d: i32,
    pub model: String,
}

/// What the weighted projection is made from.
#[derive(Debug, PartialEq, Eq, Clone, Copy)]
pub struct WeightedGrowth {
    pub current: i32,
    pub past_3d: i32,
    pub past_7d: i32,
    pub daily_growth: i32,
}

/// Which projection is made.
#[derive(Debug, PartialEq, Eq)]
pub enum GrowthPlan {
    /// The linear projection, which is the answer.
    Linear(GrowthProjection),
    /// The weighted projection, which is still to be computed.
    Weighted(WeightedGrowth),
}

/// Whether a total is known and not zero.
pub open spec fn is_usable(total: Option<Option<i32>>) -> bool {
    total matches Some(Some(t)) && t != 0
}

/// A projected total is never below zero.
pub open spec fn projected(total: int) -> int {
    if total < 0 {
        0
    } else {
        total
    }
}

/// The growth over a day as a part of the total a day ago, between losing all of it and doubling
/// it; none where there was no provider.
pub open spec fn day_ratio(growth: int, day_ago: int) -> GrowthRate {
    if day_ago <= 0 {
        GrowthRate::Ratio { numerator: 0, denominator: 1 }
    } else if growth > day_ago {
        GrowthRate::Ratio { numerator: 1, denominator: 1 }
    } else if growth < -day_ago {
        GrowthRate::Ratio { numerator: (-1) as i32, denominator: 1 }
    } else {
        GrowthRate::Ratio { numerator: growth as i32, denominator: day_ago as i32 }
    }
}

impl GrowthReplies {
    /// The current total; zero where there is none.
    pub open spec fn total(self) -> i32 {
        total_or(self.current, 0)
    }

    /// The total a day ago; the current one where that is not known.
    pub open spec fn day_ago(self) -> i32 {
        total_or(self.past_1d, self.total())
    }

    /// The growth over the last day.
    pub open spec fn growth(self) -> int {
        self.total() - self.day_ago()
    }

    /// Whether only the linear projection can be made: the current total or one of those three and
    /// seven days ago is zero or not known.
    pub open spec fn needs_linear(self) -> bool {
        self.total() == 0 || !is_usable(self.past_3d) || !is_usable(self.past_7d)
    }

    /// Whether the linear projection for some days, and the growth until then, are `i32`.
    pub open spec fn projection_fits(self, days: int) -> bool {
        fits_i32(self.growth() * days) && fits_i32(self.total() + self.growth() * days)
    }

    /// Whether all numbers of the projection are `i32`.
    pub open spec fn fits(self) -> bool {
        &&& fits_i32(self.growth())
        &&& self.needs_linear() ==> {
            &&& self.projection_fits(7)
            &&& self.projection_fits(14)
            &&& self.projection_fits(30)
            &&& self.projection_fits(90)
        }
    }

    /// Decides whether all numbers of the projection are `i32`.
    pub fn do_fit(&self) -> (fit: bool)
        ensures
            fit == self.fits(),
    {
        let current: i32 = pick_total(self.current, 0);
        let day_ago: i32 = pick_total(self.past_1d, current);
        match current.checked_sub(day_ago) {
            Some(growth) => {
                let linear: bool = current == 0 || !usable(self.past_3d) || !usable(self.past_7d);
                !linear || (fits_for(current, growth, 7) && fits_for(current, growth, 14)
                    && fits_for(current, growth, 30) && fits_for(current, growth, 90))
            },
            None => false,
        }
    }
}

fn usable(total: Option<Option<i32>>) -> (usable: bool)
    ensures
        usable == is_usable(total),
{
    match total {
        Some(Some(t)) => t != 0,
        _ => false,
    }
}

fn fits_for(current: i32, growth: i32, days: i32) -> (fit: bool)
    requires
        0 <= days <= 90,
    ensures
        fit == (fits_i32(growth * days) && fits_i32(current + growth * days)),
{
    assert(-0x8000_0000 * 90 <= growth * days <= 0x7fff_ffff * 90) by (nonlinear_arith)
        requires
            0 <= days <= 90,
            -0x8000_0000 <= growth <= 0x7fff_ffff,
    ;
    let by_then: i64 = growth as i64 * days as i64;
    let total: i64 = current as i64 + by_then;
    i32::MIN as i64 <= by_then && by_then <= i32::MAX as i64 && i32::MIN as i64 <= total && total
        <= i32::MAX as i64
}

fn at_least_zero(total: i32) -> (p: i32)
    ensures
        p == projected(total as int),
{
    if total < 0 {
        0
    } else {
        total
    }
}

fn ratio_of(growth: i32, day_ago: i32) -> (rate: GrowthRate)
    ensures
        rate == day_ratio(growth as int, day_ago as int),
{
    if day_ago <= 0 {
        GrowthRate::Ratio { numerator: 0, denominator: 1 }
    } else if growth > day_ago {
        GrowthRate::Ratio { numerator: 1, denominator: 1 }
    } else if growth < -day_ago {
        GrowthRate::Ratio { numerator: -1, denominator: 1 }
    } else {
        GrowthRate::Ratio { numerator: growth, denominator: day_ago }
    }
}

/// Takes the reply to the query for the latest timestamp; `None` where it failed.
pub fn api_growth_projection(latest: Option<String>) -> (next: Result<GrowthLatest, Failure>)
    ensures
        next matches Err(Failure::Database) <==> latest is None,
        next matches Err(Failure::ClockRange) <==> latest is Some && !(can_move(
            latest->0@,
            -ONE_DAY,
        ) && can_move(latest->0@, -THREE_DAYS) && can_move(latest->0@, -SEVEN_DAYS)),
        next matches Ok(asked) ==> {
            &&& asked.latest@ == latest->0@
            &&& asked.day_ago@ == moved_timestamp(latest->0@, -ONE_DAY)
            &&& asked.three_days_ago@ == moved_timestamp(latest->0@, -THREE_DAYS)
            &&& asked.week_ago@ == moved_timestamp(latest->0@, -SEVEN_DAYS)
        },
{
    let latest: String = match latest {
        Some(latest) => latest,
        None => {
            return Err(Failure::Database);
        },
    };
    let day_ago: Option<String> = checked_time_offset(latest.as_str(), -ONE_DAY);
    let three_days_ago: Option<String> = checked_time_offset(latest.as_str(), -THREE_DAYS);
    let week_ago: Option<String> = checked_time_offset(latest.as_str(), -SEVEN_DAYS);
    match (day_ago, three_days_ago, week_ago) {
        (Some(day_ago), Some(three_days_ago), Some(week_ago)) => Ok(
            GrowthLatest { latest, day_ago, three_days_ago, week_ago },
        ),
        _ => Err(Failure::ClockRange),
    }
}

/// Whether a projection is the linear one: every day adds what the last one added.
pub open spec fn is_linear_projection(p: GrowthProjection, replies: GrowthReplies) -> bool {
    &&& p.current == replies.total()
    &&& p.daily_growth == replies.growth()
    &&& p.growth_rate == day_ratio(replies.growth(), replies.day_ago() as int)
    &&& p.projected_7d == projected(replies.total() + replies.growth() * 7)
    &&& p.projected_14d == projected(replies.total() + replies.growth() * 14)
    &&& p.projected_30d == projected(replies.total() + replies.growth() * 30)
    &&& p.projected_90d == projected(replies.total() + replies.growth() * 90)
    &&& p.model@ == "linear-1d-fallback"@
}

/// Takes the replies to the queries for totals, and decides which projection is made.
pub fn plan_growth(replies: GrowthReplies) -> (plan: GrowthPlan)
    requires
        replies.fits(),
    ensures
        replies.needs_linear() <==> plan is Linear,
        plan matches GrowthPlan::Linear(p) ==> is_linear_projection(p, replies),
        plan matches GrowthPlan::Weighted(w) ==> {
            &&& w.current == replies.total()
            &&& replies.past_3d == Some(Some(w.past_3d))
            &&& replies.past_7d == Some(Some(w.past_7d))
            &&& w.daily_growth == replies.growth()
        },
{
    let current: i32 = pick_total(replies.current, 0);
    let day_ago: i32 = pick_total(replies.past_1d, current);
    let growth: i32 = current - day_ago;
    if current != 0 {
        if let (Some(Some(past_3d)), Some(Some(past_7d))) = (replies.past_3d, replies.past_7d) {
            if past_3d != 0 && past_7d != 0 {
                return GrowthPlan::Weighted(
                    WeightedGrowth { current, past_3d, past_7d, daily_growth: growth },
                );
            }
        }
    }
    GrowthPlan::Linear(
        GrowthProjection {
            current,
            daily_growth: growth,
            growth_rate: ratio_of(growth, day_ago),
            projected_7d: at_least_zero(current + growth * 7),
            projected_14d: at_least_zero(current + growth * 14),
            projected_30d: at_least_zero(current + growth * 30),
            projected_90d: at_least_zero(current + growth * 90),
            model: "linear-1d-fallback".to_owned(),
        },
    )
}

impl WeightedGrowth {
    /// Takes the totals that the weighted projection gives for 7, 14, 30 and 90 days, and answers.
    pub fn finish(self, in_7d: i32, in_14d: i32, in_30d: i32, in_90d: i32) -> (p: GrowthProjection)
        ensures
            p.current == self.current,
            p.daily_growth == self.daily_growth,
            p.growth_rate == GrowthRate::Weighted,
            p.projected_7d == projected(in_7d as int),
            p.projected_14d == projected(in_14d as int),
            p.projected_30d == projected(in_30d as int),
            p.projected_90d == projected(in_90d as int),
            p.projected_7d == if in_7d >= 0 { in_7d } else { 0 },
            p.projected_14d == if in_14d >= 0 { in_14d } else { 0 },
            p.projected_30d == if in_30d >= 0 { in_30d } else { 0 },
            p.projected_90d == if in_90d >= 0 { in_90d } else { 0 },
            p.model@ == "weighted-exponential"@,
    {
        GrowthProjection {
            current: self.current,
            daily_growth: self.daily_growth,
            growth_rate: GrowthRate::Weighted,
            projected_7d: at_least_zero(in_7d),
            projected_14d: at_least_zero(in_14d),
            projected_30d: at_least_zero(in_30d),
            projected_90d: at_least_zero(in_90d),
            model: "weighted-exponential".to_owned(),
        }
    }
}

/// The growth rate lies between losing everything and doubling, and within these bounds it is the
/// growth as a part of the total a day ago.
pub proof fn lemma_day_ratio(growth: int, day_ago: int)
    requires
        fits_i32(growth),
        fits_i32(day_ago),
    ensures
        day_ratio(growth, day_ago) matches GrowthRate::Ratio { numerator, denominator } && {
            &&& denominator > 0
            &&& -denominator <= numerator <= denominator
            &&& 0 < day_ago && -day_ago <= growth <= day_ago ==> numerator * day_ago == growth
                * denominator
        },
{
}

/// Where the total a day ago is not known, the linear projection stays at the current total.
pub proof fn lemma_no_growth_without_past(p: GrowthProjection, replies: GrowthReplies)
    requires
        is_linear_projection(p, replies),
        !(replies.past_1d matches Some(Some(_))),
    ensures
        p.daily_growth == 0,
        p.growth_rate matches GrowthRate::Ratio { numerator, .. } && numerator == 0,
        p.projected_7d == projected(p.current as int),
        p.projected_14d == projected(p.current as int),
        p.projected_30d == projected(p.current as int),
        p.projected_90d == projected(p.current as int),
{
}

/// The longer the linear projection, the further it goes in the direction of the growth.
pub proof fn lemma_linear_projection_monotone(p: GrowthProjection, replies: GrowthReplies)
    requires
        is_linear_projection(p, replies),
    ensures
        p.daily_growth >= 0 ==> projected(p.current as int) <= p.projected_7d <= p.projected_14d
            <= p.projected_30d <= p.projected_90d,
        p.daily_growth <= 0 ==> projected(p.current as int) >= p.projected_7d >= p.projected_14d
            >= p.projected_30d >= p.projected_90d,
        0 <= p.projected_7d && 0 <= p.projected_14d && 0 <= p.projected_30d && 0 <= p.projected_90d,
{
}

/// A total that is not negative is shown as it is, and a negative one as zero.
pub proof fn lemma_projected(total: int)
    ensures
        total >= 0 ==> projected(total) == total,
        total < 0 ==> projected(total) == 0,
{
}

/// The totals of the projection are those of the replies: the current one counts as zero where it
/// is not known, and the growth leads from the total a day ago, where that is known, to it.
pub proof fn lemma_growth_totals(replies: GrowthReplies)
    ensures
        replies.current matches Some(Some(total)) ==> replies.total() == total,
        !(replies.current matches Some(Some(_))) ==> replies.total() == 0,
        replies.past_1d matches Some(Some(total)) ==> replies.day_ago() == total && total
            + replies.growth() == replies.total(),
        !(replies.past_1d matches Some(Some(_))) ==> replies.day_ago() == replies.total()
            && replies.growth() == 0,
{
}

/// The weighted projection is made just where the current total and those three and seven days ago
/// are known and none of them is zero.
pub proof fn lemma_growth_model(replies: GrowthReplies)
    ensures
        !replies.needs_linear() <==> (replies.current matches Some(Some(now)) && now != 0)
            && (replies.past_3d matches Some(Some(three)) && three != 0)
            && (replies.past_7d matches Some(Some(seven)) && seven != 0),
{
}

/// A linear projection shows what every day adds: the total in some days is as far from the current
/// one as the daily growth times those days, and zero where that would be negative.
pub proof fn lemma_linear_projection(p: GrowthProjection, replies: GrowthReplies)
    requires
        is_linear_projection(p, replies),
    ensures
        p.current == match replies.current {
            Some(Some(total)) => total as int,
            _ => 0,
        },
        p.current - p.daily_growth == match replies.past_1d {
            Some(Some(total)) => total as int,
            _ => p.current as int,
        },
        p.current + p.daily_growth * 7 >= 0 ==> p.projected_7d - p.current == p.daily_growth * 7,
        p.current + p.daily_growth * 14 >= 0 ==> p.projected_14d - p.current == p.daily_growth * 14,
        p.current + p.daily_growth * 30 >= 0 ==> p.projected_30d - p.current == p.daily_growth * 30,
        p.current + p.daily_growth * 90 >= 0 ==> p.projected_90d - p.current == p.daily_growth * 90,
        p.current + p.daily_growth * 7 < 0 ==> p.projected_7d == 0,
        p.current + p.daily_growth * 14 < 0 ==> p.projected_14d == 0,
        p.current + p.daily_growth * 30 < 0 ==> p.projected_30d == 0,
        p.current + p.daily_growth * 90 < 0 ==> p.projected_90d == 0,
        p.model@ == "linear-1d-fallback"@,
{
    lemma_growth_totals(replies);
}

/// The growth rate of a linear projection is the daily growth as a part of the total a day ago: the
/// whole of it where the growth is larger, minus the whole where as much is lost or more, and none
/// where there was no provider.
pub proof fn lemma_linear_rate(p: GrowthProjection, replies: GrowthReplies)
    requires
        is_linear_projection(p, replies),
    ensures
        p.growth_rate matches GrowthRate::Ratio { numerator, denominator } && {
            let day_ago = p.current - p.daily_growth;
            &&& denominator > 0
            &&& day_ago <= 0 ==> numerator == 0
            &&& 0 < day_ago <= p.daily_growth ==> numerator == denominator
            &&& 0 < day_ago <= -p.daily_growth ==> numerator == -denominator
            &&& 0 < day_ago && -day_ago <= p.daily_growth <= day_ago ==> numerator * day_ago
                == p.daily_growth * denominator
        },
{
    lemma_growth_totals(replies);
}

/// Where a projection is made: the daily growth has to be an `i32`, and for the linear projection
/// the growth of 7, 14, 30 and 90 days and the totals it leads to as well. Nothing else is asked.
pub proof fn lemma_growth_fits(replies: GrowthReplies)
    ensures
        replies.fits() <==> ({
            let total = match replies.current {
                Some(Some(total)) => total as int,
                _ => 0,
            };
            let growth = total - match replies.past_1d {
                Some(Some(day_ago)) => day_ago as int,
                _ => total,
            };
            &&& -0x8000_0000 <= growth <= 0x7fff_ffff
            &&& replies.needs_linear() ==> {
                &&& -0x8000_0000 <= growth * 90 <= 0x7fff_ffff
                &&& -0x8000_0000 <= total + growth * 90 <= 0x7fff_ffff
            }
        }),
{
    lemma_growth_totals(replies);
}

}
