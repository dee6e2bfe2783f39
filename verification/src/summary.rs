//! The summary of the network: its total, how it changed, its extremes and its largest countries.

use vstd::prelude::*;

use crate::cache::{is_fresh, CachedResponse};
use crate::clock::{can_move, checked_time_offset, moved_timestamp};
use crate::models::{fits_i32, CountryCount, Failure};

verus! {

/// The minutes of the spans that the summary looks back.
pub const HOUR: i32 = 60;

pub const DAY: i32 = 1440;

pub const WEEK: i32 = 10080;

pub const TWO_WEEKS: i32 = 20160;

pub const MONTH: i32 = 43200;

/// How many of the largest countries the summary shows.
pub const LARGEST_COUNTRIES: i64 = 10;

/// A total and when it was reached.
#[derive(Debug, PartialEq, Eq)]
pub struct AthAtl {
    pub value: i32,
    pub timestamp: String,
}

/// The summary. A range is its lowest and its highest total.
#[derive(Debug, PartialEq, Eq)]
pub struct SummaryResponse {
    pub timestamp: String,
    pub total: i32,
    pub hour_delta: i32,
    pub day_delta: i32,
    pub week_delta: i32,
    pub two_week_delta: i32,
    pub top_10: Vec<CountryCount>,
    pub hour_range: (i32, i32),
    pub day_range: (i32, i32),
    pub week_range: (i32, i32),
    pub two_week_range: (i32, i32),
    pub month_range: (i32, i32),
    pub ath: AthAtl,
    pub atl: AthAtl,
}

/// The request once the latest timestamp is known: the queries for all of these times are made.
#[derive(Debug, PartialEq, Eq)]
pub struct SummaryLatest {
    pub latest: String,
    pub hour_ago: String,
    pub day_ago: String,
    pub week_ago: String,
    pub two_week_ago: String,
    pub month_ago: String,
}

/// The replies to the queries; `None` where one failed. A total is itself `None` where there is no
/// snapshot. A range is its highest and its lowest total.
#[derive(Debug, PartialEq, Eq)]
pub struct SummaryReplies {
    pub current_total: Option<Option<i32>>,
    pub hour_ago_total: Option<Option<i32>>,
    pub day_ago_total: Option<Option<i32>>,
    pub week_ago_total: Option<Option<i32>>,
    pub two_week_ago_total: Option<Option<i32>>,
    pub top_10: Option<Vec<CountryCount>>,
    pub hour_range: Option<(i32, i32)>,
    pub day_range: Option<(i32, i32)>,
    pub week_range: Option<(i32, i32)>,
    pub two_week_range: Option<(i32, i32)>,
    pub month_range: Option<(i32, i32)>,
    pub ath_atl: Option<((i32, String), (i32, String))>,
}

/// The total of a reply, or another one where there is none.
pub open spec fn total_or(reply: Option<Option<i32>>, other: i32) -> i32 {
    match reply {
        Some(Some(total)) => total,
        _ => other,
    }
}

/// The change of a total since an earlier one; none where the earlier one is not known.
pub open spec fn change_since(current: i32, earlier: Option<Option<i32>>) -> int {
    current - total_or(earlier, current)
}

/// The lowest and the highest total of a reply; zeros where the query failed.
pub open spec fn low_high(reply: Option<(i32, i32)>) -> (i32, i32) {
    match reply {
        Some((high, low)) => (low, high),
        None => (0, 0),
    }
}

impl SummaryReplies {
    /// The current total; zero where there is none.
    pub open spec fn total(self) -> i32 {
        total_or(self.current_total, 0)
    }

    /// Whether the change since each earlier total is an `i32`.
    pub open spec fn changes_fit(self) -> bool {
        &&& fits_i32(change_since(self.total(), self.hour_ago_total))
        &&& fits_i32(change_since(self.total(), self.day_ago_total))
        &&& fits_i32(change_since(self.total(), self.week_ago_total))
        &&& fits_i32(change_since(self.total(), self.two_week_ago_total))
    }

    /// Decides whether the change since each earlier total is an `i32`.
    pub fn do_changes_fit(&self) -> (fit: bool)
        ensures
            fit == self.changes_fit(),
    {
        let total: i32 = pick_total(self.current_total, 0);
        total.checked_sub(pick_total(self.hour_ago_total, total)).is_some() && total.checked_sub(
            pick_total(self.day_ago_total, total),
        ).is_some() && total.checked_sub(pick_total(self.week_ago_total, total)).is_some()
            && total.checked_sub(pick_total(self.two_week_ago_total, total)).is_some()
    }
}

/// The total of a reply, or another one where there is none.
pub(crate) fn pick_total(reply: Option<Option<i32>>, other: i32) -> (total: i32)
    ensures
        total == total_or(reply, other),
{
    match reply {
        Some(Some(total)) => total,
        _ => other,
    }
}

fn pick_range(reply: Option<(i32, i32)>) -> (range: (i32, i32))
    ensures
        range == low_high(reply),
{
    match reply {
        Some((high, low)) => (low, high),
        None => (0, 0),
    }
}

/// Whether a timestamp can be moved back by every span of the summary.
pub open spec fn summary_times_exist(latest: Seq<char>) -> bool {
    &&& can_move(latest, -HOUR)
    &&& can_move(latest, -DAY)
    &&& can_move(latest, -WEEK)
    &&& can_move(latest, -TWO_WEEKS)
    &&& can_move(latest, -MONTH)
}

/// Takes the reply to the query for the latest timestamp; `None` where it failed.
pub fn api_summary(latest: Option<String>) -> (next: Result<SummaryLatest, Failure>)
    ensures
        next matches Err(Failure::Database) <==> latest is None,
        next matches Err(Failure::ClockRange) <==> latest is Some && !summary_times_exist(
            latest->0@,
        ),
        next matches Ok(asked) ==> {
            &&& asked.latest@ == latest->0@
            &&& asked.hour_ago@ == moved_timestamp(latest->0@, -HOUR)
            &&& asked.day_ago@ == moved_timestamp(latest->0@, -DAY)
            &&& asked.week_ago@ == moved_timestamp(latest->0@, -WEEK)
            &&& asked.two_week_ago@ == moved_timestamp(latest->0@, -TWO_WEEKS)
            &&& asked.month_ago@ == moved_timestamp(latest->0@, -MONTH)
        },
{
    let latest: String = match latest {
        Some(latest) => latest,
        None => {
            return Err(Failure::Database);
        },
    };
    let hour_ago: Option<String> = checked_time_offset(latest.as_str(), -HOUR);
    let day_ago: Option<String> = checked_time_offset(latest.as_str(), -DAY);
    let week_ago: Option<String> = checked_time_offset(latest.as_str(), -WEEK);
    let two_week_ago: Option<String> = checked_time_offset(latest.as_str(), -TWO_WEEKS);
    let month_ago: Option<String> = checked_time_offset(latest.as_str(), -MONTH);
    match (hour_ago, day_ago, week_ago, two_week_ago, month_ago) {
        (Some(hour_ago), Some(day_ago), Some(week_ago), Some(two_week_ago), Some(month_ago)) => Ok(
            SummaryLatest { latest, hour_ago, day_ago, week_ago, two_week_ago, month_ago },
        ),
        _ => Err(Failure::ClockRange),
    }
}

/// Whether a summary shows as its extremes those of a reply, or its own total and time where the
/// query failed.
pub open spec fn shows_extremes(
    answer: SummaryResponse,
    reply: Option<((i32, String), (i32, String))>,
) -> bool {
    match reply {
        Some((high, low)) => {
            &&& answer.ath.value == high.0
            &&& answer.ath.timestamp@ == high.1@
            &&& answer.atl.value == low.0
            &&& answer.atl.timestamp@ == low.1@
        },
        None => {
            &&& answer.ath.value == answer.total
            &&& answer.ath.timestamp@ == answer.timestamp@
            &&& answer.atl.value == answer.total
            &&& answer.atl.timestamp@ == answer.timestamp@
        },
    }
}

impl SummaryLatest {
    /// Takes the replies to the queries, and answers. A query that failed counts as one that found
    /// nothing.
    pub fn finish(self, replies: SummaryReplies) -> (answer: SummaryResponse)
        requires
            replies.changes_fit(),
        ensures
            answer.timestamp@ == self.latest@,
            answer.total == replies.total(),
            answer.hour_delta == change_since(replies.total(), replies.hour_ago_total),
            answer.day_delta == change_since(replies.total(), replies.day_ago_total),
            answer.week_delta == change_since(replies.total(), replies.week_ago_total),
            answer.two_week_delta == change_since(replies.total(), replies.two_week_ago_total),
            answer.top_10@ == match replies.top_10 {
                Some(rows) => rows@,
                None => Seq::empty(),
            },
            answer.hour_range == low_high(replies.hour_range),
            answer.day_range == low_high(replies.day_range),
            answer.week_range == low_high(replies.week_range),
            answer.two_week_range == low_high(replies.two_week_range),
            answer.month_range == low_high(replies.month_range),
            shows_extremes(answer, replies.ath_atl),
            replies.current_total matches Some(Some(total)) ==> answer.total == total,
            replies.hour_ago_total matches Some(Some(past)) ==> past + answer.hour_delta
                == answer.total,
            replies.day_ago_total matches Some(Some(past)) ==> past + answer.day_delta
                == answer.total,
            replies.week_ago_total matches Some(Some(past)) ==> past + answer.week_delta
                == answer.total,
            replies.two_week_ago_total matches Some(Some(past)) ==> past + answer.two_week_delta
                == answer.total,
    {
        let total: i32 = pick_total(replies.current_total, 0);
        let (ath, atl): (AthAtl, AthAtl) = match replies.ath_atl {
            Some((high, low)) => (
                AthAtl { value: high.0, timestamp: high.1 },
                AthAtl { value: low.0, timestamp: low.1 },
            ),
            None => (
                AthAtl { value: total, timestamp: self.latest.clone() },
                AthAtl { value: total, timestamp: self.latest.clone() },
            ),
        };
        SummaryResponse {
            timestamp: self.latest,
            total,
            hour_delta: total - pick_total(replies.hour_ago_total, total),
            day_delta: total - pick_total(replies.day_ago_total, total),
            week_delta: total - pick_total(replies.week_ago_total, total),
            two_week_delta: total - pick_total(replies.two_week_ago_total, total),
            top_10: match replies.top_10 {
                Some(rows) => rows,
                None => Vec::new(),
            },
            hour_range: pick_range(replies.hour_range),
            day_range: pick_range(replies.day_range),
            week_range: pick_range(replies.week_range),
            two_week_range: pick_range(replies.two_week_range),
            month_range: pick_range(replies.month_range),
            ath,
            atl,
        }
    }
}

/// Where an earlier total is not known, the summary shows no change; where it is known, the change
/// leads from it to the current one.
pub proof fn lemma_change_since(current: i32, earlier: Option<Option<i32>>)
    ensures
        !(earlier matches Some(Some(_))) ==> change_since(current, earlier) == 0,
        earlier matches Some(Some(total)) ==> total + change_since(current, earlier) == current,
{
}

/// The last summary, which is kept for a short time.
pub struct SummaryCache {
    slot: Option<CachedResponse<SummaryResponse>>,
}

impl View for SummaryCache {
    type V = Option<CachedResponse<SummaryResponse>>;

    closed spec fn view(&self) -> Option<CachedResponse<SummaryResponse>> {
        self.slot
    }
}

/// The summary that is given from a kept one: that one, while it is fresh.
pub open spec fn kept_summary(
    slot: Option<CachedResponse<SummaryResponse>>,
    now: u64,
) -> Option<SummaryResponse> {
    match slot {
        Some(kept) => if is_fresh(kept.at, now) {
            Some(kept.data)
        } else {
            None
        },
        None => None,
    }
}

/// A kept summary is given until thirty seconds have passed, and then no more.
pub proof fn lemma_kept_summary(data: SummaryResponse, at: u64, now: u64)
    requires
        at <= now,
    ensures
        now - at < 30_000_000_000 ==> kept_summary(Some(CachedResponse { data, at }), now) == Some(
            data,
        ),
        now - at >= 30_000_000_000 ==> kept_summary(Some(CachedResponse { data, at }), now) is None,
{
}

impl SummaryCache {
    /// A cache without a summary.
    pub fn new() -> (cache: Self)
        ensures
            cache@ is None,
    {
        SummaryCache { slot: None }
    }

    /// The kept summary, where there is one and it is fresh.
    pub fn lookup(&self, now: u64) -> (answer: Option<&SummaryResponse>)
        ensures
            answer is Some <==> kept_summary(self@, now) is Some,
            answer matches Some(data) ==> kept_summary(self@, now) == Some(*data),
    {
        match &self.slot {
            Some(kept) => if kept.fresh(now) {
                Some(&kept.data)
            } else {
                None
            },
            None => None,
        }
    }

    /// Keeps a summary in place of an earlier one.
    pub fn store(&mut self, now: u64, data: SummaryResponse)
        ensures
            final(self)@ == Some(CachedResponse { data, at: now }),
    {
        self.slot = Some(CachedResponse { data, at: now });
    }
}

/// The total shown is the current one; zero where it is not known.
pub proof fn lemma_summary_total(replies: SummaryReplies)
    ensures
        replies.current_total matches Some(Some(total)) ==> replies.total() == total,
        !(replies.current_total matches Some(Some(_))) ==> replies.total() == 0,
{
}

/// A range is shown from its lowest to its highest total, as the reply has them.
pub proof fn lemma_summary_range(high: i32, low: i32)
    ensures
        low_high(Some((high, low))).0 == low,
        low_high(Some((high, low))).1 == high,
        low_high(None) == (0i32, 0i32),
{
}

/// The extremes shown are those of the reply, the highest total first; where the query failed, both
/// are the total and the time that the summary itself shows.
pub proof fn lemma_summary_extremes(
    answer: SummaryResponse,
    reply: Option<((i32, String), (i32, String))>,
)
    requires
        shows_extremes(answer, reply),
    ensures
        reply matches Some((high, low)) ==> answer.ath.value == high.0 && answer.ath.timestamp@
            == high.1@ && answer.atl.value == low.0 && answer.atl.timestamp@ == low.1@,
        reply is None ==> answer.ath.value == answer.total && answer.ath.timestamp@
            == answer.timestamp@ && answer.atl.value == answer.total && answer.atl.timestamp@
            == answer.timestamp@,
{
}

/// A summary can be shown just where the current total less each earlier one that is known is an
/// `i32`.
pub proof fn lemma_changes_fit(replies: SummaryReplies)
    ensures
        replies.changes_fit() <==> ({
            let total = match replies.current_total {
                Some(Some(total)) => total as int,
                _ => 0,
            };
            &&& replies.hour_ago_total matches Some(Some(past)) ==> -0x8000_0000 <= total - past
                <= 0x7fff_ffff
            &&& replies.day_ago_total matches Some(Some(past)) ==> -0x8000_0000 <= total - past
                <= 0x7fff_ffff
            &&& replies.week_ago_total matches Some(Some(past)) ==> -0x8000_0000 <= total - past
                <= 0x7fff_ffff
            &&& replies.two_week_ago_total matches Some(Some(past)) ==> -0x8000_0000 <= total - past
                <= 0x7fff_ffff
        }),
{
}

/// The spans that the summary looks back are an hour, a day, a week, two weeks and thirty days.
pub proof fn lemma_summary_times(latest: Seq<char>)
    ensures
        summary_times_exist(latest) <==> can_move(latest, -60) && can_move(latest, -24 * 60)
            && can_move(latest, -7 * 24 * 60) && can_move(latest, -14 * 24 * 60) && can_move(
            latest,
            -30 * 24 * 60,
        ),
        HOUR == 60,
        DAY == 24 * 60,
        WEEK == 7 * 24 * 60,
        TWO_WEEKS == 14 * 24 * 60,
        MONTH == 30 * 24 * 60,
{
}

}
