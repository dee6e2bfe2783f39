//! Gains and losses that the store works out: anomalies of the last hour, and the movers of three
//! spans.

use vstd::prelude::*;

use crate::clock::{can_move, checked_time_offset, moved_timestamp};
use crate::models::Failure;

verus! {

/// The minutes of the spans whose movers are shown.
pub const HOUR_SPAN: i32 = 60;

pub const DAY_SPAN: i32 = 1440;

pub const WEEK_SPAN: i32 = 10080;

/// The request for anomalies once the latest timestamp is known: what changed from `hour_ago` to
/// `latest` by more than the threshold is asked for.
#[derive(Debug, PartialEq, Eq)]
pub struct AnomaliesLatest {
    pub latest: String,
    pub hour_ago: String,
}

/// Takes the reply to the query for the latest timestamp; `None` where it failed.
pub fn api_anomalies(latest: Option<String>) -> (next: Result<AnomaliesLatest, Failure>)
    ensures
        next matches Err(Failure::Database) <==> latest is None,
        next matches Err(Failure::ClockRange) <==> latest is Some && !can_move(
            latest->0@,
            -HOUR_SPAN,
        ),
        next matches Ok(asked) ==> {
            &&& asked.latest@ == latest->0@
            &&& asked.hour_ago@ == moved_timestamp(latest->0@, -HOUR_SPAN)
        },
{
    match latest {
        Some(latest) => match checked_time_offset(latest.as_str(), -HOUR_SPAN) {
            Some(hour_ago) => Ok(AnomaliesLatest { latest, hour_ago }),
            None => Err(Failure::ClockRange),
        },
        None => Err(Failure::Database),
    }
}

impl AnomaliesLatest {
    /// Takes the reply to the query for gains and losses, and answers with the gains and then the
    /// losses.
    pub fn finish<T>(self, reply: Option<(Vec<T>, Vec<T>)>) -> (answer: Result<Vec<T>, Failure>)
        ensures
            reply is None <==> answer is Err,
            answer matches Err(failure) ==> failure == Failure::Database,
            answer matches Ok(all) ==> reply matches Some((gains, losses)) && all@ == gains@
                + losses@,
    {
        match reply {
            Some((gains, losses)) => {
                let mut all: Vec<T> = gains;
                let mut losses: Vec<T> = losses;
                all.append(&mut losses);
                Ok(all)
            },
            None => Err(Failure::Database),
        }
    }
}

/// The request for movers once the latest timestamp is known: what gained and what lost from each
/// of these times to `latest` is asked for.
#[derive(Debug, PartialEq, Eq)]
pub struct MoversLatest {
    pub latest: String,
    pub hour_ago: String,
    pub day_ago: String,
    pub week_ago: String,
}

/// What gained and what lost over one span.
#[derive(Debug, PartialEq, Eq)]
pub struct SpanMovers<T> {
    pub gainers: Vec<T>,
    pub losers: Vec<T>,
}

/// What gained and what lost over the three spans.
#[derive(Debug, PartialEq, Eq)]
pub struct Movers<T> {
    pub hour: SpanMovers<T>,
    pub day: SpanMovers<T>,
    pub week: SpanMovers<T>,
}

/// Whether movers are those of a reply; none where the query failed.
pub open spec fn shows_movers<T>(shown: SpanMovers<T>, reply: Option<(Vec<T>, Vec<T>)>) -> bool {
    match reply {
        Some((gainers, losers)) => shown.gainers@ == gainers@ && shown.losers@ == losers@,
        None => shown.gainers@ == Seq::<T>::empty() && shown.losers@ == Seq::<T>::empty(),
    }
}

fn span_movers<T>(reply: Option<(Vec<T>, Vec<T>)>) -> (shown: SpanMovers<T>)
    ensures
        shows_movers(shown, reply),
{
    match reply {
        Some((gainers, losers)) => SpanMovers { gainers, losers },
        None => SpanMovers { gainers: Vec::new(), losers: Vec::new() },
    }
}

/// Takes the reply to the query for the latest timestamp; `None` where it failed.
pub fn api_movers(latest: Option<String>) -> (next: Result<MoversLatest, Failure>)
    ensures
        next matches Err(Failure::Database) <==> latest is None,
        next matches Err(Failure::ClockRange) <==> latest is Some && !(can_move(
            latest->0@,
            -HOUR_SPAN,
        ) && can_move(latest->0@, -DAY_SPAN) && can_move(latest->0@, -WEEK_SPAN)),
        next matches Ok(asked) ==> {
            &&& asked.latest@ == latest->0@
            &&& asked.hour_ago@ == moved_timestamp(latest->0@, -HOUR_SPAN)
            &&& asked.day_ago@ == moved_timestamp(latest->0@, -DAY_SPAN)
            &&& asked.week_ago@ == moved_timestamp(latest->0@, -WEEK_SPAN)
        },
{
    let latest: String = match latest {
        Some(latest) => latest,
        None => {
            return Err(Failure::Database);
        },
    };
    let hour_ago: Option<String> = checked_time_offset(latest.as_str(), -HOUR_SPAN);
    let day_ago: Option<String> = checked_time_offset(latest.as_str(), -DAY_SPAN);
    let week_ago: Option<String> = checked_time_offset(latest.as_str(), -WEEK_SPAN);
    match (hour_ago, day_ago, week_ago) {
        (Some(hour_ago), Some(day_ago), Some(week_ago)) => Ok(
            MoversLatest { latest, hour_ago, day_ago, week_ago },
        ),
        _ => Err(Failure::ClockRange),
    }
}

impl MoversLatest {
    /// Takes the replies to the queries for the three spans, and answers. A query that failed
    /// counts as one that found nothing.
    pub fn finish<T>(
        self,
        hour: Option<(Vec<T>, Vec<T>)>,
        day: Option<(Vec<T>, Vec<T>)>,
        week: Option<(Vec<T>, Vec<T>)>,
    ) -> (answer: Movers<T>)
        ensures
            shows_movers(answer.hour, hour),
            shows_movers(answer.day, day),
            shows_movers(answer.week, week),
    {
        Movers { hour: span_movers(hour), day: span_movers(day), week: span_movers(week) }
    }
}

/// The movers shown over a span are those of the reply, all of them in their order, and none where
/// the query failed.
pub proof fn lemma_span_movers<T>(shown: SpanMovers<T>, reply: Option<(Vec<T>, Vec<T>)>)
    requires
        shows_movers(shown, reply),
    ensures
        reply is None ==> shown.gainers@.len() == 0 && shown.losers@.len() == 0,
        reply matches Some((gainers, losers)) ==> {
            &&& shown.gainers@.len() == gainers@.len()
            &&& shown.losers@.len() == losers@.len()
            &&& forall|i: int|
                0 <= i < gainers@.len() ==> #[trigger] shown.gainers@[i] == gainers@[i]
            &&& forall|i: int| 0 <= i < losers@.len() ==> #[trigger] shown.losers@[i] == losers@[i]
        },
{
}

}
