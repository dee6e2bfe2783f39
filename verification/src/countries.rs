//! Countries: the largest ones, and the history of one or two.

use vstd::prelude::*;
use vstd::seq_lib::group_to_multiset_ensures;
use vstd::utf8::is_ascii_chars;

use crate::models::{CountryCount, CountryView, Failure, HistoryPoint, HistoryView};
use crate::ranking::{
    first, lemma_ranked_in_order, lemma_ranked_items, lemma_ranked_stable, level_with, order_of,
    rank, ranked, ranks, views, Order,
};
use crate::text::{ascii_upper, upper_case, upper_text};

verus! {

/// How many of the largest countries are shown.
pub const TOP_COUNTRIES: usize = 5;

/// How many points of a country's history are shown.
pub const HISTORY_POINTS: i64 = 720;

/// The country with the most providers first.
pub struct MostProviders;

impl Order<CountryCount> for MostProviders {
    open spec fn ahead(a: CountryView, b: CountryView) -> bool {
        a.count > b.count
    }

    fn is_ahead(a: &CountryCount, b: &CountryCount) -> (r: bool) {
        a.provider_count > b.provider_count
    }
}

/// The largest countries of a snapshot, from the largest one down. Of countries with equal counts
/// the earlier one comes first.
pub open spec fn top_countries(rows: Seq<CountryView>) -> Seq<CountryView> {
    first(ranked(rows, order_of::<CountryCount, MostProviders>()), TOP_COUNTRIES as nat)
}

/// The request once the latest timestamp is known: the snapshot of `latest` is asked for.
#[derive(Debug, PartialEq, Eq)]
pub struct TopCountriesLatest {
    pub latest: String,
}

/// Takes the reply to the query for the latest timestamp; `None` where it failed.
pub fn api_top_countries(latest: Option<String>) -> (next: Result<TopCountriesLatest, Failure>)
    ensures
        next == match latest {
            Some(latest) => Ok::<TopCountriesLatest, Failure>(TopCountriesLatest { latest }),
            None => Err(Failure::Database),
        },
{
    match latest {
        Some(latest) => Ok(TopCountriesLatest { latest }),
        None => Err(Failure::Database),
    }
}

impl TopCountriesLatest {
    /// Takes the reply to the query for the snapshot, and answers.
    pub fn finish(self, countries: Option<Vec<CountryCount>>) -> (answer: Result<
        Vec<CountryCount>,
        Failure,
    >)
        ensures
            countries is None <==> answer is Err,
            answer matches Err(failure) ==> failure == Failure::Database,
            answer matches Ok(top) ==> views(top@) == top_countries(views(countries->0@)),
    {
        match countries {
            Some(rows) => {
                let mut top: Vec<CountryCount> = rank::<CountryCount, MostProviders>(rows);
                let ghost all = top@;
                if top.len() > TOP_COUNTRIES {
                    top.truncate(TOP_COUNTRIES);
                    assert(views(top@) =~= views(all).take(TOP_COUNTRIES as int));
                }
                Ok(top)
            },
            None => Err(Failure::Database),
        }
    }
}

/// Whether a country has a given number of providers.
pub open spec fn has_count(count: i32) -> spec_fn(CountryView) -> bool {
    |c: CountryView| c.count == count
}

/// The largest countries are all of them or as many as are shown, with falling counts. No country
/// that is left out has more providers than one that is shown, and countries with the same count
/// keep the order of the snapshot.
pub proof fn lemma_top_countries(rows: Seq<CountryView>)
    ensures
        top_countries(rows).len() == if rows.len() <= TOP_COUNTRIES {
            rows.len()
        } else {
            TOP_COUNTRIES as nat
        },
        forall|i: int, j: int|
            0 <= i < j < top_countries(rows).len() ==> (#[trigger] top_countries(rows)[i]).count
                >= (#[trigger] top_countries(rows)[j]).count,
        forall|c: CountryView, i: int|
            #![trigger rows.contains(c), top_countries(rows)[i]]
            rows.contains(c) && !top_countries(rows).contains(c) && 0 <= i < top_countries(
                rows,
            ).len() ==> top_countries(rows)[i].count >= c.count,
        forall|count: i32|
            ranked(rows, order_of::<CountryCount, MostProviders>()).filter(
                #[trigger] has_count(count),
            ) == rows.filter(has_count(count)),
{
    broadcast use group_to_multiset_ensures;

    let order = order_of::<CountryCount, MostProviders>();
    let all = ranked(rows, order);
    let top = top_countries(rows);
    assert(ranks(order));
    lemma_ranked_items(rows, order);
    lemma_ranked_in_order(rows, order);
    assert forall|i: int, j: int| 0 <= i < j < top.len() implies (#[trigger] top[i]).count >= (
    #[trigger] top[j]).count by {
        assert(!order(all[j], all[i]));
    }
    assert forall|c: CountryView, i: int|
        #![trigger rows.contains(c), top[i]]
        rows.contains(c) && !top.contains(c) && 0 <= i < top.len() implies top[i].count
        >= c.count by {
        assert(all.to_multiset().count(c) > 0);
        assert(all.contains(c));
        let k = choose|k: int| 0 <= k < all.len() && all[k] == c;
        if k < top.len() {
            assert(top[k] == c);
        }
        assert(!order(all[k], all[i]));
    }
    assert forall|count: i32| all.filter(#[trigger] has_count(count)) == rows.filter(
        has_count(count),
    ) by {
        let other = CountryView { code: seq![], name: seq![], count };
        lemma_ranked_stable(rows, other, order);
        assert(level_with(other, order) =~= has_count(count));
    }
}

/// Takes the reply to the query for the last [`HISTORY_POINTS`] points of a country's history, and
/// answers with them.
pub fn api_country(history: Option<Vec<HistoryPoint>>) -> (answer: Result<
    Vec<HistoryPoint>,
    Failure,
>)
    ensures
        answer == match history {
            Some(points) => Ok::<Vec<HistoryPoint>, Failure>(points),
            None => Err(Failure::Database),
        },
{
    match history {
        Some(points) => Ok(points),
        None => Err(Failure::Database),
    }
}

/// The number of providers of a country at one time, with the country's code.
#[derive(Debug, PartialEq, Eq)]
pub struct ComparisonPoint {
    pub timestamp: String,
    pub code: String,
    pub count: i32,
}

/// What a [`ComparisonPoint`] says.
pub struct ComparisonView {
    pub timestamp: Seq<char>,
    pub code: Seq<char>,
    pub count: i32,
}

impl View for ComparisonPoint {
    type V = ComparisonView;

    open spec fn view(&self) -> ComparisonView {
        ComparisonView { timestamp: self.timestamp@, code: self.code@, count: self.count }
    }
}

/// The histories of two countries.
#[derive(Debug, PartialEq, Eq)]
pub struct Comparison {
    pub data1: Vec<ComparisonPoint>,
    pub data2: Vec<ComparisonPoint>,
}

/// The points of a history, each with a code.
pub open spec fn labelled(code: Seq<char>, rows: Seq<HistoryView>) -> Seq<ComparisonView> {
    Seq::new(
        rows.len(),
        |i: int| ComparisonView { timestamp: rows[i].timestamp, code, count: rows[i].count },
    )
}

/// The points of a reply; none where the query failed.
pub open spec fn points_or_none(reply: Option<Vec<HistoryPoint>>) -> Seq<HistoryView> {
    match reply {
        Some(points) => views(points@),
        None => Seq::empty(),
    }
}

/// Gives each point of a history a code. A query that failed counts as one that found nothing.
pub fn labelled_history(code: &str, history: Option<Vec<HistoryPoint>>) -> (points: Vec<
    ComparisonPoint,
>)
    ensures
        views(points@) == labelled(code@, points_or_none(history)),
        history is None ==> points@.len() == 0,
        history matches Some(found) ==> {
            &&& points@.len() == found@.len()
            &&& forall|i: int|
                0 <= i < found@.len() ==> (#[trigger] points@[i]).timestamp@ == found@[i].timestamp@
                    && points@[i].code@ == code@ && points@[i].count == found@[i].provider_count
        },
{
    let ghost rows = points_or_none(history);
    let mut points: Vec<ComparisonPoint> = Vec::new();
    if let Some(history) = history {
        let mut i: usize = 0;
        while i < history.len()
            invariant
                rows == views(history@),
                i <= history@.len(),
                points@.len() == i,
                forall|k: int|
                    0 <= k < i ==> (#[trigger] points@[k])@ == labelled(code@, rows)[k],
            decreases history@.len() - i,
        {
            let point: ComparisonPoint = ComparisonPoint {
                timestamp: history[i].timestamp.clone(),
                code: code.to_owned(),
                count: history[i].provider_count,
            };
            points.push(point);
            i = i + 1;
        }
    }
    assert(views(points@) =~= labelled(code@, rows));
    points
}

/// Takes the replies to the queries for the last [`HISTORY_POINTS`] points of the histories of two
/// countries, and answers. Codes are shown in upper case.
pub fn api_comparison(
    code1: &str,
    history1: Option<Vec<HistoryPoint>>,
    code2: &str,
    history2: Option<Vec<HistoryPoint>>,
) -> (answer: Comparison)
    ensures
        views(answer.data1@) == labelled(upper_text(code1@), points_or_none(history1)),
        views(answer.data2@) == labelled(upper_text(code2@), points_or_none(history2)),
        is_ascii_chars(code1@) ==> views(answer.data1@) == labelled(
            code1@.map_values(|c: char| ascii_upper(c)),
            points_or_none(history1),
        ),
        is_ascii_chars(code2@) ==> views(answer.data2@) == labelled(
            code2@.map_values(|c: char| ascii_upper(c)),
            points_or_none(history2),
        ),
{
    let shown1: String = upper_case(code1);
    let shown2: String = upper_case(code2);
    Comparison {
        data1: labelled_history(shown1.as_str(), history1),
        data2: labelled_history(shown2.as_str(), history2),
    }
}

/// What is shown of a snapshot, by its rows: five, or all where there are fewer, with falling
/// counts; all of them are rows of the snapshot; and no row that is left out has a larger count
/// than one that is shown.
pub proof fn lemma_top_shown(rows: Seq<CountryCount>, top: Seq<CountryCount>)
    requires
        views(top) == top_countries(views(rows)),
    ensures
        top.len() == if rows.len() < 5 {
            rows.len()
        } else {
            5
        },
        forall|i: int, j: int|
            0 <= i < j < top.len() ==> (#[trigger] top[i]).provider_count >= (
            #[trigger] top[j]).provider_count,
        forall|i: int|
            0 <= i < top.len() ==> exists|k: int|
                0 <= k < rows.len() && (#[trigger] rows[k])@ == (#[trigger] top[i])@,
        forall|k: int, i: int|
            #![trigger rows[k], top[i]]
            0 <= k < rows.len() && !views(top).contains(rows[k]@) && 0 <= i < top.len()
                ==> rows[k].provider_count <= top[i].provider_count,
{
    broadcast use group_to_multiset_ensures;

    let all = views(rows);
    let order = order_of::<CountryCount, MostProviders>();
    let shown = top_countries(all);
    lemma_top_countries(all);
    lemma_ranked_items(all, order);
    assert forall|i: int, j: int| 0 <= i < j < top.len() implies (
    #[trigger] top[i]).provider_count >= (#[trigger] top[j]).provider_count by {
        assert(shown[i] == top[i]@ && shown[j] == top[j]@);
    }
    assert forall|i: int| 0 <= i < top.len() implies exists|k: int|
        0 <= k < rows.len() && (#[trigger] rows[k])@ == (#[trigger] top[i])@ by {
        assert(shown[i] == top[i]@);
        assert(ranked(all, order)[i] == top[i]@);
        assert(ranked(all, order).contains(top[i]@));
        assert(all.to_multiset().count(top[i]@) > 0);
        assert(all.contains(top[i]@));
        let k = choose|k: int| 0 <= k < all.len() && all[k] == top[i]@;
        assert(rows[k]@ == top[i]@);
    }
    assert forall|k: int, i: int|
        #![trigger rows[k], top[i]]
        0 <= k < rows.len() && !views(top).contains(rows[k]@) && 0 <= i
            < top.len() implies rows[k].provider_count <= top[i].provider_count by {
        assert(all[k] == rows[k]@);
        assert(all.contains(rows[k]@));
        assert(shown[i] == top[i]@);
    }
}

/// Of two rows with the same count, one shown and the other shown behind it or left out, the first
/// one comes earlier in the snapshot.
pub proof fn lemma_ties_keep_order(
    rows: Seq<CountryCount>,
    top: Seq<CountryCount>,
    i: int,
    other: CountryView,
)
    requires
        views(top) == top_countries(views(rows)),
        0 <= i < top.len(),
        other.count == top[i].provider_count,
        (exists|j: int| i < j < top.len() && (#[trigger] top[j])@ == other) || views(rows).contains(
            other,
        ) && !views(top).contains(other),
    ensures
        exists|p: int, q: int|
            0 <= p < q < rows.len() && (#[trigger] rows[p])@ == top[i]@ && (#[trigger] rows[q])@
                == other,
{
    broadcast use group_to_multiset_ensures;

    let all = views(rows);
    let order = order_of::<CountryCount, MostProviders>();
    let sorted = ranked(all, order);
    let level = has_count(top[i].provider_count);
    lemma_top_countries(all);
    lemma_ranked_items(all, order);
    assert(views(top)[i] == top[i]@);
    assert(sorted[i] == top[i]@);
    let k = if exists|j: int| i < j < top.len() && (#[trigger] top[j])@ == other {
        let j = choose|j: int| i < j < top.len() && (#[trigger] top[j])@ == other;
        assert(views(top)[j] == top[j]@);
        j
    } else {
        assert(sorted.to_multiset().count(other) > 0);
        assert(sorted.contains(other));
        let k = choose|k: int| 0 <= k < sorted.len() && sorted[k] == other;
        if k < top.len() {
            assert(views(top)[k] == other);
            assert(views(top).contains(other));
        }
        k
    };
    assert(sorted[k] == other);
    assert(sorted.filter(level) == all.filter(level));
    let (a, b) = lemma_filter_keeps_order(sorted, level, i, k);
    let (p, q) = lemma_filter_comes_from(all, level, a, b);
    assert(rows[p]@ == top[i]@ && rows[q]@ == other);
}

/// Two items that pass stand in the same order in the filtered list.
proof fn lemma_filter_keeps_order<V>(
    items: Seq<V>,
    pass: spec_fn(V) -> bool,
    i: int,
    j: int,
) -> (places: (int, int))
    requires
        0 <= i < j < items.len(),
        pass(items[i]),
        pass(items[j]),
    ensures
        0 <= places.0 < places.1 < items.filter(pass).len(),
        items.filter(pass)[places.0] == items[i],
        items.filter(pass)[places.1] == items[j],
    decreases items.len(),
{
    broadcast use vstd::seq_lib::group_filter_ensures;

    reveal(Seq::filter);
    let shorter = items.drop_last();
    if j < shorter.len() {
        lemma_filter_keeps_order(shorter, pass, i, j)
    } else {
        assert(shorter.filter(pass).contains(shorter[i]));
        let a = choose|a: int|
            0 <= a < shorter.filter(pass).len() && shorter.filter(pass)[a] == shorter[i];
        (a, shorter.filter(pass).len() as int)
    }
}

/// Two items of a filtered list stand in the same order in the list.
proof fn lemma_filter_comes_from<V>(
    items: Seq<V>,
    pass: spec_fn(V) -> bool,
    a: int,
    b: int,
) -> (places: (int, int))
    requires
        0 <= a < b < items.filter(pass).len(),
    ensures
        0 <= places.0 < places.1 < items.len(),
        items[places.0] == items.filter(pass)[a],
        items[places.1] == items.filter(pass)[b],
    decreases items.len(),
{
    reveal(Seq::filter);
    let shorter = items.drop_last();
    if b < shorter.filter(pass).len() {
        lemma_filter_comes_from(shorter, pass, a, b)
    } else {
        let item = shorter.filter(pass)[a];
        assert(shorter.filter(pass).contains(item));
        shorter.lemma_filter_contains_rev(pass, item);
        let p = choose|p: int| 0 <= p < shorter.len() && shorter[p] == item;
        (p, shorter.len() as int)
    }
}

/// A compared history has the points of the history, all of them in order, each with its time and
/// count and the code; where the query failed it has none.
pub proof fn lemma_labelled(
    code: Seq<char>,
    reply: Option<Vec<HistoryPoint>>,
    points: Seq<ComparisonPoint>,
)
    requires
        views(points) == labelled(code, points_or_none(reply)),
    ensures
        reply is None ==> points.len() == 0,
        reply matches Some(found) ==> {
            &&& points.len() == found@.len()
            &&& forall|i: int|
                0 <= i < points.len() ==> (#[trigger] points[i]).timestamp@ == found@[i].timestamp@
                    && points[i].code@ == code && points[i].count == found@[i].provider_count
        },
{
    assert(views(points).len() == points.len());
    if let Some(found) = reply {
        assert(views(found@).len() == found@.len());
        assert forall|i: int| 0 <= i < points.len() implies (#[trigger] points[i]).timestamp@
            == found@[i].timestamp@ && points[i].code@ == code && points[i].count
            == found@[i].provider_count by {
            assert(views(points)[i] == points[i]@);
            assert(views(found@)[i] == found@[i]@);
        }
    }
}

}
