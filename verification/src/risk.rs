//! Countries at risk: those that lost their last providers and those that are close to it.

use vstd::hash_map::StringHashMap;
use vstd::prelude::*;

use crate::clock::{can_move, checked_time_offset, moved_timestamp};
use crate::models::{CountryCount, CountryView, Failure};
use crate::ranking::views;
use crate::snapshot::{counts_by_code, index_by_code, lemma_earlier_count};

verus! {

/// A day, in minutes.
pub const DAY_MINUTES: i32 = 1440;

/// The most providers that a country near zero has.
pub const NEAR_ZERO_COUNT: i32 = 5;

/// Whether a country has disappeared: no providers are left, and there were some before.
pub open spec fn has_disappeared(past: Map<Seq<char>, i32>) -> spec_fn(CountryView) -> bool {
    |c: CountryView| c.count == 0 && past.contains_key(c.code) && past[c.code] > 0
}

/// Whether a country is near zero: a few providers are left, and there were more before.
pub open spec fn is_near_zero(past: Map<Seq<char>, i32>) -> spec_fn(CountryView) -> bool {
    |c: CountryView|
        1 <= c.count <= NEAR_ZERO_COUNT && past.contains_key(c.code) && c.count < past[c.code]
}

/// The answer: the countries at risk, in the order of the current snapshot.
#[derive(Debug, PartialEq, Eq)]
pub struct AtRisk {
    pub disappeared: Vec<CountryCount>,
    pub near_zero: Vec<CountryCount>,
}

/// The request once the latest timestamp is known: the snapshot of `latest` is asked for.
#[derive(Debug, PartialEq, Eq)]
pub struct AtRiskLatest {
    pub latest: String,
    pub day_ago: String,
}

/// The request once the current snapshot is known: the snapshot of `day_ago` is asked for.
#[derive(Debug, PartialEq, Eq)]
pub struct AtRiskCurrent {
    pub current: Vec<CountryCount>,
    pub day_ago: String,
}

/// Takes the reply to the query for the latest timestamp; `None` where it failed.
pub fn api_at_risk(latest: Option<String>) -> (next: Result<AtRiskLatest, Failure>)
    ensures
        next matches Err(Failure::Database) <==> latest is None,
        next matches Err(Failure::ClockRange) <==> latest is Some && !can_move(
            latest->0@,
            -DAY_MINUTES,
        ),
        next matches Ok(asked) ==> {
            &&& asked.latest@ == latest->0@
            &&& asked.day_ago@ == moved_timestamp(latest->0@, -DAY_MINUTES)
        },
{
    match latest {
        Some(latest) => match checked_time_offset(latest.as_str(), -DAY_MINUTES) {
            Some(day_ago) => Ok(AtRiskLatest { latest, day_ago }),
            None => Err(Failure::ClockRange),
        },
        None => Err(Failure::Database),
    }
}

impl AtRiskLatest {
    /// Takes the reply to the query for the current snapshot.
    pub fn with_current(self, current: Option<Vec<CountryCount>>) -> (next: Result<
        AtRiskCurrent,
        Failure,
    >)
        ensures
            next == match current {
                Some(rows) => Ok::<AtRiskCurrent, Failure>(
                    AtRiskCurrent { current: rows, day_ago: self.day_ago },
                ),
                None => Err(Failure::Database),
            },
    {
        match current {
            Some(rows) => Ok(AtRiskCurrent { current: rows, day_ago: self.day_ago }),
            None => Err(Failure::Database),
        }
    }
}

/// The rows of a reply; none where the query failed.
pub open spec fn rows_or_none(reply: Option<Vec<CountryCount>>) -> Seq<CountryView> {
    match reply {
        Some(rows) => views(rows@),
        None => Seq::empty(),
    }
}

impl AtRiskCurrent {
    /// Takes the reply to the query for the past snapshot, and answers. Where that query failed,
    /// no country was there before, and none is at risk.
    pub fn finish(self, past: Option<Vec<CountryCount>>) -> (answer: AtRisk)
        ensures
            views(answer.disappeared@) == views(self.current@).filter(
                has_disappeared(counts_by_code(rows_or_none(past))),
            ),
            views(answer.near_zero@) == views(self.current@).filter(
                is_near_zero(counts_by_code(rows_or_none(past))),
            ),
    {
        let before: StringHashMap<i32> = match past {
            Some(rows) => index_by_code(&rows),
            None => StringHashMap::new(),
        };
        let ghost counts = before@;
        let ghost all = views(self.current@);
        let mut disappeared: Vec<CountryCount> = Vec::new();
        let mut near_zero: Vec<CountryCount> = Vec::new();
        let mut i: usize = 0;
        proof {
            reveal(Seq::filter);
            assert(views(disappeared@) =~= all.take(0).filter(has_disappeared(counts)));
            assert(views(near_zero@) =~= all.take(0).filter(is_near_zero(counts)));
        }
        while i < self.current.len()
            invariant
                counts == before@,
                all == views(self.current@),
                i <= self.current@.len(),
                views(disappeared@) == all.take(i as int).filter(has_disappeared(counts)),
                views(near_zero@) == all.take(i as int).filter(is_near_zero(counts)),
            decreases self.current@.len() - i,
        {
            let country: &CountryCount = &self.current[i];
            let ghost gone = disappeared@;
            let ghost near = near_zero@;
            let past_count: Option<i32> = match before.get(country.country_code.as_str()) {
                Some(count) => Some(*count),
                None => None,
            };
            if let Some(past_count) = past_count {
                if country.provider_count == 0 {
                    if past_count > 0 {
                        disappeared.push(country.clone());
                        assert(views(disappeared@) =~= views(gone).push(country@));
                    }
                } else if country.provider_count >= 1 && country.provider_count
                    <= NEAR_ZERO_COUNT {
                    if country.provider_count < past_count {
                        near_zero.push(country.clone());
                        assert(views(near_zero@) =~= views(near).push(country@));
                    }
                }
            }
            proof {
                reveal(Seq::filter);
                assert(all.take(i + 1).drop_last() =~= all.take(i as int));
                assert(all.take(i + 1).last() == country@);
            }
            i = i + 1;
        }
        assert(all.take(i as int) =~= all);
        AtRisk { disappeared, near_zero }
    }
}

/// A country has disappeared just where it has no providers and had some, and it is near zero just
/// where it has one to five and had more, however many those were. None is both, and every country
/// at risk was there before, with more providers than it has.
pub proof fn lemma_at_risk(past: Map<Seq<char>, i32>, country: CountryView)
    ensures
        has_disappeared(past)(country) <==> country.count == 0 && past.contains_key(country.code)
            && 0 < past[country.code],
        is_near_zero(past)(country) <==> 1 <= country.count <= 5 && past.contains_key(country.code)
            && country.count < past[country.code],
        !(has_disappeared(past)(country) && is_near_zero(past)(country)),
        has_disappeared(past)(country) || is_near_zero(past)(country) ==> past.contains_key(
            country.code,
        ) && country.count < past[country.code],
{
}

/// What is shown of the rows of the current snapshot: a row whose code has a last row in the
/// earlier one is among the disappeared just where its count is zero and that row's is not, and
/// among those near zero just where its count is one to five and below that row's. A row whose
/// code has no earlier row is not shown, and nothing is shown but rows of the current snapshot.
pub proof fn lemma_at_risk_answer(
    current: Seq<CountryCount>,
    past: Option<Vec<CountryCount>>,
    answer: AtRisk,
)
    requires
        views(answer.disappeared@) == views(current).filter(
            has_disappeared(counts_by_code(rows_or_none(past))),
        ),
        views(answer.near_zero@) == views(current).filter(
            is_near_zero(counts_by_code(rows_or_none(past))),
        ),
    ensures
        past matches Some(before) ==> forall|i: int, k: int|
            #![trigger current[i], before@[k]]
            0 <= i < current.len() && 0 <= k < before@.len() && before@[k].country_code@
                == current[i].country_code@ && (forall|m: int|
                k < m < before@.len() ==> (#[trigger] before@[m]).country_code@
                    != current[i].country_code@) ==> {
                &&& views(answer.disappeared@).contains(current[i]@) <==> current[i].provider_count
                    == 0 && before@[k].provider_count > 0
                &&& views(answer.near_zero@).contains(current[i]@) <==> 1
                    <= current[i].provider_count <= 5 && current[i].provider_count
                    < before@[k].provider_count
            },
        past matches Some(before) ==> forall|i: int|
            #![trigger current[i]]
            0 <= i < current.len() && (forall|m: int|
                0 <= m < before@.len() ==> (#[trigger] before@[m]).country_code@
                    != current[i].country_code@) ==> !views(answer.disappeared@).contains(
                current[i]@,
            ) && !views(answer.near_zero@).contains(current[i]@),
        past is None ==> answer.disappeared@.len() == 0 && answer.near_zero@.len() == 0,
        forall|j: int|
            0 <= j < answer.disappeared@.len() ==> views(current).contains(
                (#[trigger] answer.disappeared@[j])@,
            ),
        forall|j: int|
            0 <= j < answer.near_zero@.len() ==> views(current).contains(
                (#[trigger] answer.near_zero@[j])@,
            ),
{
    let counts = counts_by_code(rows_or_none(past));
    let all = views(current);
    assert forall|c: CountryView| #[trigger]
        views(answer.disappeared@).contains(c) == (all.contains(c) && has_disappeared(counts)(
            c,
        )) by {
        lemma_filtered(all, has_disappeared(counts), c);
    }
    assert forall|c: CountryView| #[trigger]
        views(answer.near_zero@).contains(c) == (all.contains(c) && is_near_zero(counts)(c)) by {
        lemma_filtered(all, is_near_zero(counts), c);
    }
    assert forall|i: int| 0 <= i < current.len() implies all.contains(
        (#[trigger] current[i])@,
    ) by {
        assert(all[i] == current[i]@);
    }
    if let Some(before) = past {
        assert forall|i: int, k: int|
            #![trigger current[i], before@[k]]
            0 <= i < current.len() && 0 <= k < before@.len() && before@[k].country_code@
                == current[i].country_code@ && (forall|m: int|
                k < m < before@.len() ==> (#[trigger] before@[m]).country_code@
                    != current[i].country_code@) implies {
            &&& views(answer.disappeared@).contains(current[i]@) <==> current[i].provider_count
                == 0 && before@[k].provider_count > 0
            &&& views(answer.near_zero@).contains(current[i]@) <==> 1 <= current[i].provider_count
                <= 5 && current[i].provider_count < before@[k].provider_count
        } by {
            lemma_earlier_count(before@, current[i].country_code@);
            lemma_at_risk(counts, current[i]@);
        }
        assert forall|i: int|
            #![trigger current[i]]
            0 <= i < current.len() && (forall|m: int|
                0 <= m < before@.len() ==> (#[trigger] before@[m]).country_code@
                    != current[i].country_code@) implies !views(answer.disappeared@).contains(
            current[i]@,
        ) && !views(answer.near_zero@).contains(current[i]@) by {
            lemma_earlier_count(before@, current[i].country_code@);
            lemma_at_risk(counts, current[i]@);
        }
    } else {
        if answer.disappeared@.len() > 0 {
            assert(views(answer.disappeared@)[0] == answer.disappeared@[0]@);
            assert(views(answer.disappeared@).contains(answer.disappeared@[0]@));
            lemma_at_risk(counts, answer.disappeared@[0]@);
        }
        if answer.near_zero@.len() > 0 {
            assert(views(answer.near_zero@)[0] == answer.near_zero@[0]@);
            assert(views(answer.near_zero@).contains(answer.near_zero@[0]@));
            lemma_at_risk(counts, answer.near_zero@[0]@);
        }
    }
    assert forall|j: int| 0 <= j < answer.disappeared@.len() implies all.contains(
        (#[trigger] answer.disappeared@[j])@,
    ) by {
        assert(views(answer.disappeared@)[j] == answer.disappeared@[j]@);
        assert(views(answer.disappeared@).contains(answer.disappeared@[j]@));
    }
    assert forall|j: int| 0 <= j < answer.near_zero@.len() implies all.contains(
        (#[trigger] answer.near_zero@[j])@,
    ) by {
        assert(views(answer.near_zero@)[j] == answer.near_zero@[j]@);
        assert(views(answer.near_zero@).contains(answer.near_zero@[j]@));
    }
}

/// A filtered list holds just those items of the list that pass.
proof fn lemma_filtered<V>(items: Seq<V>, pass: spec_fn(V) -> bool, item: V)
    ensures
        items.filter(pass).contains(item) <==> items.contains(item) && pass(item),
{
    broadcast use vstd::seq_lib::group_filter_ensures;

    let out = items.filter(pass);
    if out.contains(item) {
        items.lemma_filter_contains_rev(pass, item);
        let j = choose|j: int| 0 <= j < out.len() && out[j] == item;
        assert(pass(out[j]));
    }
    if items.contains(item) && pass(item) {
        let i = choose|i: int| 0 <= i < items.len() && items[i] == item;
        assert(out.contains(items[i]));
    }
}

/// The rows of a snapshot are judged one by one and keep their order: what is shown of a snapshot
/// is what is shown of its rows up to any point, and then what is shown of those from there on.
pub proof fn lemma_at_risk_row_by_row(
    first_rows: Seq<CountryView>,
    other_rows: Seq<CountryView>,
    past: Map<Seq<char>, i32>,
)
    ensures
        (first_rows + other_rows).filter(has_disappeared(past)) == first_rows.filter(
            has_disappeared(past),
        ) + other_rows.filter(has_disappeared(past)),
        (first_rows + other_rows).filter(is_near_zero(past)) == first_rows.filter(
            is_near_zero(past),
        ) + other_rows.filter(is_near_zero(past)),
{
    Seq::filter_distributes_over_add(first_rows, other_rows, has_disappeared(past));
    Seq::filter_distributes_over_add(first_rows, other_rows, is_near_zero(past));
}

}
