//! The countries that gained and lost most providers.

use vstd::hash_map::StringHashMap;
use vstd::prelude::*;
use vstd::seq_lib::group_to_multiset_ensures;

use crate::clock::{can_move, checked_time_offset, moved_timestamp};
use crate::models::{fits_i32, CountryCount, CountryView, Failure};
use crate::ranking::{
    first, lemma_first_ahead, lemma_ranked_items, lemma_ranked_strict, lemma_ranked_unique,
    order_of, rank, ranked, ranks, views, Order,
};
use crate::snapshot::{
    contains_code, counts_by_code, distinct_codes, has_code, index_by_code, is_last_of_code,
    is_last_row, last_per_code, last_rows, lemma_counts_of_same_rows, lemma_distinct_last_rows,
    lemma_earlier_count, lemma_last_per_code, lemma_last_row_of_code, lemma_last_rows_come_from,
    lemma_same_items, lemma_same_rows, same_rows,
};
use crate::text::{
    is_text_before, lemma_text_before_irreflexive, lemma_text_before_total,
    lemma_text_before_transitive, text_before,
};

verus! {

/// A time span over which the change of a count is shown.
#[derive(Debug, PartialEq, Eq)]
pub struct Window {
    pub name: String,
    pub minutes: i32,
}

/// What a [`Window`] says.
pub struct WindowView {
    pub name: Seq<char>,
    pub minutes: i32,
}

impl View for Window {
    type V = WindowView;

    open spec fn view(&self) -> WindowView {
        WindowView { name: self.name@, minutes: self.minutes }
    }
}

/// The windows of the detailed list, from a quarter of an hour to thirty days.
pub open spec fn window_table() -> Seq<WindowView> {
    seq![
        WindowView { name: "15m"@, minutes: 15 },
        WindowView { name: "1h"@, minutes: 60 },
        WindowView { name: "2h"@, minutes: 120 },
        WindowView { name: "3h"@, minutes: 180 },
        WindowView { name: "6h"@, minutes: 360 },
        WindowView { name: "12h"@, minutes: 720 },
        WindowView { name: "24h"@, minutes: 1440 },
        WindowView { name: "2d"@, minutes: 2880 },
        WindowView { name: "3d"@, minutes: 4320 },
        WindowView { name: "4d"@, minutes: 5760 },
        WindowView { name: "5d"@, minutes: 7200 },
        WindowView { name: "6d"@, minutes: 8640 },
        WindowView { name: "7d"@, minutes: 10080 },
        WindowView { name: "14d"@, minutes: 20160 },
        WindowView { name: "30d"@, minutes: 43200 },
    ]
}

/// The place of the window of a day among the windows: the one by which countries are ranked.
pub const DAY_WINDOW: usize = 6;

/// How many countries each list shows at most.
pub const LIST_LENGTH: usize = 50;

/// How many countries a complete snapshot has at least.
pub const COMPLETE_SNAPSHOT: usize = 80;

/// Every window is at least a quarter of an hour and at most thirty days long.
proof fn lemma_window_minutes(w: int)
    requires
        0 <= w < window_table().len(),
    ensures
        15 <= window_table()[w].minutes <= 43200,
{
    let t = window_table();
    assert(t.len() == 15);
    assert(w == 0 || w == 1 || w == 2 || w == 3 || w == 4 || w == 5 || w == 6 || w == 7 || w == 8
        || w == 9 || w == 10 || w == 11 || w == 12 || w == 13 || w == 14);
}

/// A window of some minutes.
fn window(name: &str, minutes: i32) -> (w: Window)
    ensures
        w@ == (WindowView { name: name@, minutes }),
{
    Window { name: name.to_owned(), minutes }
}

/// The windows of the detailed list.
pub fn windows() -> (table: Vec<Window>)
    ensures
        views(table@) == window_table(),
{
    let table: Vec<Window> = vec![
        window("15m", 15),
        window("1h", 60),
        window("2h", 120),
        window("3h", 180),
        window("6h", 360),
        window("12h", 720),
        window("24h", 1440),
        window("2d", 2880),
        window("3d", 4320),
        window("4d", 5760),
        window("5d", 7200),
        window("6d", 8640),
        window("7d", 10080),
        window("14d", 20160),
        window("30d", 43200),
    ];
    assert(views(table@) =~= window_table());
    table
}

/// A country with the change of its count over each window; `None` where there is no earlier
/// count.
#[derive(Debug, PartialEq, Eq)]
pub struct Mover {
    pub code: String,
    pub name: String,
    pub current: i32,
    pub deltas: Vec<Option<i32>>,
}

/// What a [`Mover`] says.
#[verifier::ext_equal]
pub struct MoverView {
    pub code: Seq<char>,
    pub name: Seq<char>,
    pub current: i32,
    pub deltas: Seq<Option<i32>>,
}

impl View for Mover {
    type V = MoverView;

    open spec fn view(&self) -> MoverView {
        MoverView {
            code: self.code@,
            name: self.name@,
            current: self.current,
            deltas: self.deltas@,
        }
    }
}

impl Clone for Mover {
    fn clone(&self) -> (copy: Self)
        ensures
            copy@ == self@,
    {
        let mut deltas: Vec<Option<i32>> = Vec::new();
        let mut i: usize = 0;
        while i < self.deltas.len()
            invariant
                i <= self.deltas@.len(),
                deltas@ == self.deltas@.take(i as int),
            decreases self.deltas@.len() - i,
        {
            deltas.push(self.deltas[i]);
            assert(deltas@ =~= self.deltas@.take(i + 1));
            i = i + 1;
        }
        assert(deltas@ =~= self.deltas@);
        Mover { code: self.code.clone(), name: self.name.clone(), current: self.current, deltas }
    }
}

/// The change of a country's count against earlier counts.
pub open spec fn delta_against(past: Option<Map<Seq<char>, i32>>, country: CountryView) -> Option<
    i32,
> {
    match past {
        Some(counts) => if counts.contains_key(country.code) {
            Some((country.count - counts[country.code]) as i32)
        } else {
            None
        },
        None => None,
    }
}

/// A country with its changes against the earlier counts of each window.
pub open spec fn mover_of(
    country: CountryView,
    past: Seq<Option<Map<Seq<char>, i32>>>,
) -> MoverView {
    MoverView {
        code: country.code,
        name: country.name,
        current: country.count,
        deltas: Seq::new(past.len(), |w: int| delta_against(past[w], country)),
    }
}

/// Whether the change of a country's count over every window is an `i32`.
pub open spec fn deltas_fit(country: CountryView, past: Seq<Option<Map<Seq<char>, i32>>>) -> bool {
    forall|w: int|
        0 <= w < past.len() ==> (#[trigger] past[w] matches Some(counts) ==> (counts.contains_key(
            country.code,
        ) ==> fits_i32(country.count - counts[country.code])))
}

/// Whether all changes of all countries are `i32`.
pub open spec fn all_deltas_fit(
    rows: Seq<CountryView>,
    past: Seq<Option<Map<Seq<char>, i32>>>,
) -> bool {
    forall|i: int| 0 <= i < rows.len() ==> deltas_fit(#[trigger] rows[i], past)
}

/// The earlier counts of each window; `None` where a query failed.
pub open spec fn past_counts(replies: Seq<Option<Vec<CountryCount>>>) -> Seq<
    Option<Map<Seq<char>, i32>>,
> {
    Seq::new(
        replies.len(),
        |w: int|
            match replies[w] {
                Some(rows) => Some(counts_by_code(views(rows@))),
                None => None,
            },
    )
}

/// The countries of a snapshot with their changes, one for each code.
pub open spec fn movers(
    rows: Seq<CountryView>,
    past: Seq<Option<Map<Seq<char>, i32>>>,
) -> Seq<MoverView> {
    last_per_code(rows).map_values(|c: CountryView| mover_of(c, past))
}

/// A country's change over a day; none counts as no change.
pub open spec fn day_delta(m: MoverView) -> int {
    if DAY_WINDOW < m.deltas.len() && m.deltas[DAY_WINDOW as int] is Some {
        m.deltas[DAY_WINDOW as int]->0 as int
    } else {
        0
    }
}

impl Mover {
    /// The country's change over a day; none counts as no change.
    pub fn day_delta(&self) -> (delta: i32)
        ensures
            delta == day_delta(self@),
    {
        if DAY_WINDOW < self.deltas.len() {
            match self.deltas[DAY_WINDOW] {
                Some(delta) => delta,
                None => 0,
            }
        } else {
            0
        }
    }
}

/// The largest gain over a day first; where the changes are the same, by country code.
pub struct Gains;

impl Order<Mover> for Gains {
    open spec fn ahead(a: MoverView, b: MoverView) -> bool {
        ||| day_delta(a) > day_delta(b)
        ||| day_delta(a) == day_delta(b) && text_before(a.code, b.code)
    }

    fn is_ahead(a: &Mover, b: &Mover) -> (r: bool) {
        let left: i32 = a.day_delta();
        let right: i32 = b.day_delta();
        left > right || (left == right && is_text_before(a.code.as_str(), b.code.as_str()))
    }
}

/// The largest loss over a day first; where the changes are the same, by country code.
pub struct Losses;

impl Order<Mover> for Losses {
    open spec fn ahead(a: MoverView, b: MoverView) -> bool {
        ||| day_delta(a) < day_delta(b)
        ||| day_delta(a) == day_delta(b) && text_before(a.code, b.code)
    }

    fn is_ahead(a: &Mover, b: &Mover) -> (r: bool) {
        let left: i32 = a.day_delta();
        let right: i32 = b.day_delta();
        left < right || (left == right && is_text_before(a.code.as_str(), b.code.as_str()))
    }
}

/// A snapshot with the countries of another one that it lacks, behind its own.
pub open spec fn merged(current: Seq<CountryView>, fallback: Seq<CountryView>) -> Seq<CountryView> {
    current + fallback.filter(|c: CountryView| !has_code(current, c.code))
}

/// A snapshot as it is ranked: one that is not complete is filled up from the last complete one,
/// where that is known.
pub open spec fn completed(
    current: Seq<CountryView>,
    fallback: Option<Vec<CountryCount>>,
) -> Seq<CountryView> {
    if current.len() < COMPLETE_SNAPSHOT && fallback is Some {
        merged(current, views(fallback->0@))
    } else {
        current
    }
}

/// The answer: the countries that gained most and those that lost most.
#[derive(Debug, PartialEq, Eq)]
pub struct MoversDetailed {
    pub gainers: Vec<Mover>,
    pub losers: Vec<Mover>,
}

/// The request once the latest timestamp is known: the snapshot of `latest` is asked for.
#[derive(Debug, PartialEq, Eq)]
pub struct MoversDetailedLatest {
    pub latest: String,
}

/// The request once the current snapshot is known: where it is not complete, the last complete
/// one is asked for.
#[derive(Debug, PartialEq, Eq)]
pub struct MoversDetailedCurrent {
    pub latest: String,
    pub current: Vec<CountryCount>,
}

/// The request once all countries are known: for each window the snapshot nearest to its start
/// is asked for.
#[derive(Debug, PartialEq, Eq)]
pub struct MoversDetailedPast {
    pub current: Vec<CountryCount>,
    pub past_times: Vec<String>,
}

/// Takes the reply to the query for the latest timestamp; `None` where it failed.
pub fn api_movers_detailed(latest: Option<String>) -> (next: Result<MoversDetailedLatest, Failure>)
    ensures
        next == match latest {
            Some(latest) => Ok::<MoversDetailedLatest, Failure>(MoversDetailedLatest { latest }),
            None => Err(Failure::Database),
        },
{
    match latest {
        Some(latest) => Ok(MoversDetailedLatest { latest }),
        None => Err(Failure::Database),
    }
}

impl MoversDetailedLatest {
    /// Takes the reply to the query for the current snapshot.
    pub fn with_current(self, current: Option<Vec<CountryCount>>) -> (next: Result<
        MoversDetailedCurrent,
        Failure,
    >)
        ensures
            next == match current {
                Some(rows) => Ok::<MoversDetailedCurrent, Failure>(
                    MoversDetailedCurrent { latest: self.latest, current: rows },
                ),
                None => Err(Failure::Database),
            },
    {
        match current {
            Some(rows) => Ok(MoversDetailedCurrent { latest: self.latest, current: rows }),
            None => Err(Failure::Database),
        }
    }
}

/// Fills a snapshot up with the countries of another one that it lacks.
fn merge(current: Vec<CountryCount>, fallback: Vec<CountryCount>) -> (all: Vec<CountryCount>)
    ensures
        views(all@) == merged(views(current@), views(fallback@)),
{
    let ghost lacking = |c: CountryView| !has_code(views(current@), c.code);
    let ghost extra = views(fallback@);
    let mut added: Vec<CountryCount> = Vec::new();
    let mut i: usize = 0;
    proof {
        reveal(Seq::filter);
        assert(views(added@) =~= extra.take(0).filter(lacking));
    }
    while i < fallback.len()
        invariant
            lacking == (|c: CountryView| !has_code(views(current@), c.code)),
            extra == views(fallback@),
            i <= fallback@.len(),
            views(added@) == extra.take(i as int).filter(lacking),
        decreases fallback@.len() - i,
    {
        let ghost before = added@;
        if !contains_code(&current, &fallback[i].country_code) {
            added.push(fallback[i].clone());
            assert(views(added@) =~= views(before).push(extra[i as int]));
        }
        proof {
            reveal(Seq::filter);
            assert(extra.take(i + 1).drop_last() =~= extra.take(i as int));
            assert(extra.take(i + 1).last() == extra[i as int]);
        }
        i = i + 1;
    }
    assert(extra.take(i as int) =~= extra);
    let ghost own = views(current@);
    let ghost behind = added@;
    let mut all: Vec<CountryCount> = current;
    all.append(&mut added);
    assert(views(all@) =~= own + views(behind));
    all
}

impl MoversDetailedCurrent {
    /// Whether the last complete snapshot is asked for: the current one is not complete.
    pub fn wants_fallback(&self) -> (wanted: bool)
        ensures
            wanted == (self.current@.len() < COMPLETE_SNAPSHOT),
            wanted == (self.current@.len() < 80),
    {
        self.current.len() < COMPLETE_SNAPSHOT
    }

    /// Takes the reply to the query for the last complete snapshot; `None` where it failed or was
    /// not asked.
    pub fn with_fallback(self, fallback: Option<Vec<CountryCount>>) -> (next: Result<
        MoversDetailedPast,
        Failure,
    >)
        ensures
            next is Ok <==> forall|w: int|
                0 <= w < window_table().len() ==> can_move(
                    self.latest@,
                    -(#[trigger] window_table()[w]).minutes,
                ),
            next matches Err(failure) ==> failure == Failure::ClockRange,
            next matches Ok(asked) ==> {
                &&& views(asked.current@) == completed(views(self.current@), fallback)
                &&& asked.past_times@.len() == window_table().len()
                &&& forall|w: int|
                    0 <= w < window_table().len() ==> (#[trigger] asked.past_times@[w])@
                        == moved_timestamp(self.latest@, -window_table()[w].minutes)
            },
    {
        let wanted: bool = self.wants_fallback();
        let current: Vec<CountryCount> = match fallback {
            Some(rows) => if wanted {
                merge(self.current, rows)
            } else {
                self.current
            },
            None => self.current,
        };
        let table: Vec<Window> = windows();
        let mut past_times: Vec<String> = Vec::new();
        let mut w: usize = 0;
        while w < table.len()
            invariant
                views(table@) == window_table(),
                w <= table@.len(),
                past_times@.len() == w,
                forall|v: int|
                    0 <= v < w ==> can_move(
                        self.latest@,
                        -(#[trigger] window_table()[v]).minutes,
                    ),
                forall|v: int|
                    0 <= v < w ==> (#[trigger] past_times@[v])@ == moved_timestamp(
                        self.latest@,
                        -window_table()[v].minutes,
                    ),
            decreases table@.len() - w,
        {
            assert(views(table@)[w as int] == window_table()[w as int]);
            proof {
                lemma_window_minutes(w as int);
            }
            match checked_time_offset(self.latest.as_str(), -table[w].minutes) {
                Some(time) => past_times.push(time),
                None => {
                    return Err(Failure::ClockRange);
                },
            }
            w = w + 1;
        }
        Ok(MoversDetailedPast { current, past_times })
    }
}

/// The earlier counts of each window, as they are looked up.
pub open spec fn lookups(maps: Seq<Option<StringHashMap<i32>>>) -> Seq<
    Option<Map<Seq<char>, i32>>,
> {
    Seq::new(
        maps.len(),
        |w: int|
            match maps[w] {
                Some(counts) => Some(counts@),
                None => None,
            },
    )
}

/// The earlier counts of each window.
fn index_all(past: &Vec<Option<Vec<CountryCount>>>) -> (maps: Vec<Option<StringHashMap<i32>>>)
    ensures
        lookups(maps@) == past_counts(past@),
{
    let mut maps: Vec<Option<StringHashMap<i32>>> = Vec::new();
    let mut w: usize = 0;
    while w < past.len()
        invariant
            w <= past@.len(),
            maps@.len() == w,
            forall|v: int| 0 <= v < w ==> #[trigger] lookups(maps@)[v] == past_counts(past@)[v],
        decreases past@.len() - w,
    {
        let ghost before = maps@;
        match &past[w] {
            Some(rows) => maps.push(Some(index_by_code(rows))),
            None => maps.push(None),
        }
        assert forall|v: int| 0 <= v < w + 1 implies #[trigger] lookups(maps@)[v] == past_counts(
            past@,
        )[v] by {
            if v < w {
                assert(lookups(before)[v] == past_counts(past@)[v]);
            }
        }
        w = w + 1;
    }
    assert(lookups(maps@) =~= past_counts(past@));
    maps
}

/// A country with its changes; `None` where one of them is no `i32`.
fn mover(country: &CountryCount, maps: &Vec<Option<StringHashMap<i32>>>) -> (mover: Option<Mover>)
    ensures
        mover is Some <==> deltas_fit(country@, lookups(maps@)),
        mover matches Some(m) ==> m@ == mover_of(country@, lookups(maps@)),
{
    let ghost past = lookups(maps@);
    let mut deltas: Vec<Option<i32>> = Vec::new();
    let mut w: usize = 0;
    while w < maps.len()
        invariant
            past == lookups(maps@),
            w <= maps@.len(),
            deltas@.len() == w,
            forall|v: int|
                0 <= v < w ==> (#[trigger] past[v] matches Some(counts) ==> (counts.contains_key(
                    country@.code,
                ) ==> fits_i32(country@.count - counts[country@.code]))),
            forall|v: int| 0 <= v < w ==> #[trigger] deltas@[v] == delta_against(past[v], country@),
        decreases maps@.len() - w,
    {
        let earlier: Option<i32> = match &maps[w] {
            Some(counts) => match counts.get(country.country_code.as_str()) {
                Some(count) => Some(*count),
                None => None,
            },
            None => None,
        };
        assert(past[w as int] is Some <==> maps@[w as int] is Some);
        match earlier {
            Some(count) => match country.provider_count.checked_sub(count) {
                Some(delta) => deltas.push(Some(delta)),
                None => {
                    assert(past[w as int] is Some);
                    return None;
                },
            },
            None => deltas.push(None),
        }
        w = w + 1;
    }
    let ghost shown = mover_of(country@, past).deltas;
    assert(deltas@ =~= shown);
    Some(
        Mover {
            code: country.country_code.clone(),
            name: country.country_name.clone(),
            current: country.provider_count,
            deltas,
        },
    )
}

/// The countries with their changes, one for each code; `None` where a change of any row is no
/// `i32`.
fn all_movers(rows: &Vec<CountryCount>, past: &Vec<Option<Vec<CountryCount>>>) -> (out: Option<
    Vec<Mover>,
>)
    ensures
        out is Some <==> all_deltas_fit(views(rows@), past_counts(past@)),
        out matches Some(list) ==> views(list@) == movers(views(rows@), past_counts(past@)),
{
    let maps: Vec<Option<StringHashMap<i32>>> = index_all(past);
    let ghost counts = past_counts(past@);
    let ghost all = views(rows@);
    let ghost shown = |c: CountryView| mover_of(c, counts);
    let mut list: Vec<Mover> = Vec::new();
    let mut i: usize = 0;
    assert(views(list@) =~= last_rows(all, 0).map_values(shown));
    while i < rows.len()
        invariant
            counts == past_counts(past@),
            lookups(maps@) == counts,
            all == views(rows@),
            shown == (|c: CountryView| mover_of(c, counts)),
            i <= rows@.len(),
            forall|j: int| 0 <= j < i ==> deltas_fit(#[trigger] all[j], counts),
            views(list@) == last_rows(all, i as nat).map_values(shown),
        decreases rows@.len() - i,
    {
        assert(all[i as int] == rows@[i as int]@);
        match mover(&rows[i], &maps) {
            Some(m) => {
                let ghost before = list@;
                if is_last_row(rows, i) {
                    list.push(m);
                    assert(views(list@) =~= last_rows(all, (i + 1) as nat).map_values(shown)) by {
                        assert(views(list@) =~= views(before).push(m@));
                    }
                }
            },
            None => {
                assert(!deltas_fit(all[i as int], counts));
                return None;
            },
        }
        i = i + 1;
    }
    Some(list)
}

/// A copy of a list.
fn copied(list: &Vec<Mover>) -> (out: Vec<Mover>)
    ensures
        views(out@) == views(list@),
{
    let mut out: Vec<Mover> = Vec::new();
    let mut i: usize = 0;
    while i < list.len()
        invariant
            i <= list@.len(),
            out@.len() == i,
            forall|j: int| 0 <= j < i ==> (#[trigger] out@[j])@ == list@[j]@,
        decreases list@.len() - i,
    {
        out.push(list[i].clone());
        i = i + 1;
    }
    assert(views(out@) =~= views(list@));
    out
}

impl MoversDetailedPast {
    /// Decides whether all changes that the answer shows are `i32`.
    pub fn deltas_fit(&self, past: &Vec<Option<Vec<CountryCount>>>) -> (fit: bool)
        ensures
            fit == all_deltas_fit(views(self.current@), past_counts(past@)),
    {
        all_movers(&self.current, past).is_some()
    }

    /// Takes the earlier snapshot of each window, `None` where a query for it failed, and
    /// answers.
    pub fn finish(self, past: Vec<Option<Vec<CountryCount>>>) -> (answer: MoversDetailed)
        requires
            past@.len() == window_table().len(),
            all_deltas_fit(views(self.current@), past_counts(past@)),
        ensures
            views(answer.gainers@) == first(
                ranked(
                    movers(views(self.current@), past_counts(past@)),
                    order_of::<Mover, Gains>(),
                ),
                LIST_LENGTH as nat,
            ),
            views(answer.losers@) == first(
                ranked(
                    movers(views(self.current@), past_counts(past@)),
                    order_of::<Mover, Losses>(),
                ),
                LIST_LENGTH as nat,
            ),
    {
        match all_movers(&self.current, &past) {
            Some(list) => {
                let mut gainers: Vec<Mover> = rank::<Mover, Gains>(copied(&list));
                let ghost all_gainers = gainers@;
                gainers.truncate(LIST_LENGTH);
                assert(views(gainers@) =~= first(views(all_gainers), LIST_LENGTH as nat));
                let mut losers: Vec<Mover> = rank::<Mover, Losses>(list);
                let ghost all_losers = losers@;
                losers.truncate(LIST_LENGTH);
                assert(views(losers@) =~= first(views(all_losers), LIST_LENGTH as nat));
                MoversDetailed { gainers, losers }
            },
            None => MoversDetailed { gainers: Vec::new(), losers: Vec::new() },
        }
    }
}

/// Ranking by gains, and ranking by losses, are orders.
proof fn lemma_mover_orders()
    ensures
        ranks(order_of::<Mover, Gains>()),
        ranks(order_of::<Mover, Losses>()),
{
    let gains = order_of::<Mover, Gains>();
    let losses = order_of::<Mover, Losses>();
    assert forall|a: MoverView, b: MoverView| #[trigger] gains(a, b) implies !gains(b, a) by {
        lemma_text_before_total(a.code, b.code);
        lemma_text_before_irreflexive(a.code);
    }
    assert forall|a: MoverView, b: MoverView| #[trigger] losses(a, b) implies !losses(b, a) by {
        lemma_text_before_total(a.code, b.code);
        lemma_text_before_irreflexive(a.code);
    }
    assert forall|a: MoverView, b: MoverView, c: MoverView|
        !(#[trigger] gains(a, b)) && !(#[trigger] gains(b, c)) implies !gains(a, c) by {
        lemma_codes_transitive(a.code, b.code, c.code);
    }
    assert forall|a: MoverView, b: MoverView, c: MoverView|
        !(#[trigger] losses(a, b)) && !(#[trigger] losses(b, c)) implies !losses(a, c) by {
        lemma_codes_transitive(a.code, b.code, c.code);
    }
}

/// A code that is not before one that is not before a third is not before the third.
proof fn lemma_codes_transitive(a: Seq<char>, b: Seq<char>, c: Seq<char>)
    ensures
        !text_before(a, b) && !text_before(b, c) ==> !text_before(a, c),
{
    lemma_text_before_total(a, b);
    lemma_text_before_total(b, c);
    lemma_text_before_total(a, c);
    if !text_before(a, b) && !text_before(b, c) && text_before(b, a) && text_before(c, b) {
        lemma_text_before_transitive(c, b, a);
        lemma_text_before_irreflexive(a);
        lemma_text_before_irreflexive(c);
        if text_before(a, c) {
            lemma_text_before_transitive(c, a, c);
        }
    }
}

/// Whether no two countries of a list have the same code.
pub open spec fn distinct_mover_codes(list: Seq<MoverView>) -> bool {
    forall|i: int, j: int|
        0 <= i < j < list.len() ==> (#[trigger] list[i]).code != (#[trigger] list[j]).code
}

/// The answer shows no country twice.
pub proof fn lemma_movers_distinct(rows: Seq<CountryView>, past: Seq<Option<Map<Seq<char>, i32>>>)
    ensures
        distinct_mover_codes(movers(rows, past)),
{
    lemma_last_per_code(rows);
    let list = movers(rows, past);
    assert forall|i: int, j: int| 0 <= i < j < list.len() implies (#[trigger] list[i]).code != (
    #[trigger] list[j]).code by {
        assert(last_per_code(rows)[i].code != last_per_code(rows)[j].code);
    }
}

/// The ranking of the countries depends on the countries alone, not on the order in which they
/// are given: where the changes are the same, the code decides.
pub proof fn lemma_ranking_stable(s: Seq<MoverView>, t: Seq<MoverView>)
    requires
        distinct_mover_codes(s),
        s.to_multiset() == t.to_multiset(),
    ensures
        ranked(s, order_of::<Mover, Gains>()) == ranked(t, order_of::<Mover, Gains>()),
        ranked(s, order_of::<Mover, Losses>()) == ranked(t, order_of::<Mover, Losses>()),
{
    lemma_mover_orders();
    lemma_movers_decided(s);
    lemma_ranked_unique(s, t, order_of::<Mover, Gains>());
    lemma_ranked_unique(s, t, order_of::<Mover, Losses>());
}

/// Both orders decide between any two countries with different codes.
proof fn lemma_movers_decided(s: Seq<MoverView>)
    requires
        distinct_mover_codes(s),
    ensures
        s.no_duplicates(),
        ({
            let gains = order_of::<Mover, Gains>();
            forall|a: MoverView, b: MoverView|
                #![trigger gains(a, b)]
                s.contains(a) && s.contains(b) && a != b ==> gains(a, b) || gains(b, a)
        }),
        ({
            let losses = order_of::<Mover, Losses>();
            forall|a: MoverView, b: MoverView|
                #![trigger losses(a, b)]
                s.contains(a) && s.contains(b) && a != b ==> losses(a, b) || losses(b, a)
        }),
{
    let gains = order_of::<Mover, Gains>();
    let losses = order_of::<Mover, Losses>();
    assert forall|i: int, j: int| 0 <= i < s.len() && 0 <= j < s.len() && i != j implies s[i]
        != s[j] by {
        if i < j {
            assert(s[i].code != s[j].code);
        } else {
            assert(s[j].code != s[i].code);
        }
    }
    assert forall|a: MoverView, b: MoverView| s.contains(a) && s.contains(b) && a != b implies (
    #[trigger] gains(a, b)) || gains(b, a) by {
        lemma_different_codes(s, a, b);
    }
    assert forall|a: MoverView, b: MoverView| s.contains(a) && s.contains(b) && a != b implies (
    #[trigger] losses(a, b)) || losses(b, a) by {
        lemma_different_codes(s, a, b);
    }
}

/// Two different countries of a list without repetition have codes of which one comes first.
proof fn lemma_different_codes(s: Seq<MoverView>, a: MoverView, b: MoverView)
    requires
        distinct_mover_codes(s),
        s.contains(a),
        s.contains(b),
        a != b,
    ensures
        text_before(a.code, b.code) || text_before(b.code, a.code),
{
    let i = choose|i: int| 0 <= i < s.len() && s[i] == a;
    let j = choose|j: int| 0 <= j < s.len() && s[j] == b;
    if i < j {
        assert(s[i].code != s[j].code);
    } else {
        assert(s[j].code != s[i].code);
    }
    lemma_text_before_total(a.code, b.code);
}

/// The number of countries that a list shows: fifty, or all where there are fewer.
pub open spec fn shown_length(countries: nat) -> nat {
    if countries < LIST_LENGTH {
        countries
    } else {
        LIST_LENGTH as nat
    }
}

/// The gainers come with falling changes over a day; countries with the same change come by
/// rising codes. Those left out come behind all that are shown.
pub proof fn lemma_gainers(list: Seq<MoverView>)
    requires
        distinct_mover_codes(list),
    ensures
        ({
            let gainers = first(ranked(list, order_of::<Mover, Gains>()), LIST_LENGTH as nat);
            &&& gainers.len() == shown_length(list.len())
            &&& forall|i: int, j: int|
                0 <= i < j < gainers.len() ==> day_delta(#[trigger] gainers[i]) > day_delta(
                    #[trigger] gainers[j],
                ) || day_delta(gainers[i]) == day_delta(gainers[j]) && text_before(
                    gainers[i].code,
                    gainers[j].code,
                )
            &&& forall|m: MoverView, i: int|
                #![trigger list.contains(m), gainers[i]]
                list.contains(m) && !gainers.contains(m) && 0 <= i < gainers.len()
                    ==> Gains::ahead(gainers[i], m)
        }),
{
    let gains = order_of::<Mover, Gains>();
    lemma_mover_orders();
    lemma_movers_decided(list);
    lemma_ranked_items(list, gains);
    lemma_ranked_strict(list, gains);
    let all = ranked(list, gains);
    let gainers = first(all, LIST_LENGTH as nat);
    assert forall|i: int, j: int| 0 <= i < j < gainers.len() implies day_delta(
        #[trigger] gainers[i],
    ) > day_delta(#[trigger] gainers[j]) || day_delta(gainers[i]) == day_delta(gainers[j])
        && text_before(gainers[i].code, gainers[j].code) by {
        assert(gains(all[i], all[j]));
    }
    assert forall|m: MoverView, i: int|
        #![trigger list.contains(m), gainers[i]]
        list.contains(m) && !gainers.contains(m) && 0 <= i < gainers.len() implies Gains::ahead(
        gainers[i],
        m,
    ) by {
        lemma_first_ahead(list, gains, LIST_LENGTH as nat, m);
        assert(gains(gainers[i], m));
    }
}

/// The losers come with rising changes over a day; countries with the same change come by rising
/// codes. Those left out come behind all that are shown.
pub proof fn lemma_losers(list: Seq<MoverView>)
    requires
        distinct_mover_codes(list),
    ensures
        ({
            let losers = first(ranked(list, order_of::<Mover, Losses>()), LIST_LENGTH as nat);
            &&& losers.len() == shown_length(list.len())
            &&& forall|i: int, j: int|
                0 <= i < j < losers.len() ==> day_delta(#[trigger] losers[i]) < day_delta(
                    #[trigger] losers[j],
                ) || day_delta(losers[i]) == day_delta(losers[j]) && text_before(
                    losers[i].code,
                    losers[j].code,
                )
            &&& forall|m: MoverView, i: int|
                #![trigger list.contains(m), losers[i]]
                list.contains(m) && !losers.contains(m) && 0 <= i < losers.len()
                    ==> Losses::ahead(losers[i], m)
        }),
{
    let losses = order_of::<Mover, Losses>();
    lemma_mover_orders();
    lemma_movers_decided(list);
    lemma_ranked_items(list, losses);
    lemma_ranked_strict(list, losses);
    let all = ranked(list, losses);
    let losers = first(all, LIST_LENGTH as nat);
    assert forall|i: int, j: int| 0 <= i < j < losers.len() implies day_delta(
        #[trigger] losers[i],
    ) < day_delta(#[trigger] losers[j]) || day_delta(losers[i]) == day_delta(losers[j])
        && text_before(losers[i].code, losers[j].code) by {
        assert(losses(all[i], all[j]));
    }
    assert forall|m: MoverView, i: int|
        #![trigger list.contains(m), losers[i]]
        list.contains(m) && !losers.contains(m) && 0 <= i < losers.len() implies Losses::ahead(
        losers[i],
        m,
    ) by {
        lemma_first_ahead(list, losses, LIST_LENGTH as nat, m);
        assert(losses(losers[i], m));
    }
}

/// Filling a snapshot up keeps its own rows in place, adds no row of a code that it has, and
/// leaves no code of the other snapshot out.
pub proof fn lemma_merged(current: Seq<CountryView>, fallback: Seq<CountryView>)
    ensures
        merged(current, fallback).take(current.len() as int) == current,
        forall|i: int|
            current.len() <= i < merged(current, fallback).len() ==> !has_code(
                current,
                (#[trigger] merged(current, fallback)[i]).code,
            ),
        forall|code: Seq<char>|
            has_code(fallback, code) ==> #[trigger] has_code(merged(current, fallback), code),
{
    broadcast use vstd::seq_lib::group_filter_ensures;

    let lacking = |c: CountryView| !has_code(current, c.code);
    let all = merged(current, fallback);
    let added = fallback.filter(lacking);
    assert(all.take(current.len() as int) =~= current);
    assert forall|i: int| current.len() <= i < all.len() implies !has_code(
        current,
        (#[trigger] all[i]).code,
    ) by {
        assert(lacking(added[i - current.len()]));
    }
    assert forall|code: Seq<char>| has_code(fallback, code) implies #[trigger] has_code(
        all,
        code,
    ) by {
        if has_code(current, code) {
            let i = choose|i: int| 0 <= i < current.len() && (#[trigger] current[i]).code == code;
            assert(all[i].code == code);
        } else {
            let i = choose|i: int| 0 <= i < fallback.len() && (#[trigger] fallback[i]).code == code;
            assert(lacking(fallback[i]));
            assert(added.contains(fallback[i]));
            let k = choose|k: int| 0 <= k < added.len() && added[k] == fallback[i];
            assert(all[current.len() + k].code == code);
        }
    }
}

/// Picking rows leaves no code twice where there was none.
proof fn lemma_filter_distinct(rows: Seq<CountryView>, picked: spec_fn(CountryView) -> bool)
    requires
        distinct_codes(rows),
    ensures
        distinct_codes(rows.filter(picked)),
    decreases rows.len(),
{
    broadcast use vstd::seq_lib::group_filter_ensures;

    reveal(Seq::filter);
    if rows.len() > 0 {
        let shorter = rows.drop_last();
        lemma_filter_distinct(shorter, picked);
        let fewer = shorter.filter(picked);
        let all = rows.filter(picked);
        assert forall|i: int, j: int| 0 <= i < j < all.len() implies (#[trigger] all[i]).code != (
        #[trigger] all[j]).code by {
            assert(all[i] == fewer[i]);
            if j < fewer.len() {
                assert(fewer[i].code != fewer[j].code);
            } else {
                shorter.lemma_filter_contains_rev(picked, fewer[i]);
                let k = choose|k: int| 0 <= k < shorter.len() && shorter[k] == fewer[i];
                assert(rows[k].code != rows[rows.len() - 1].code);
            }
        }
    }
}

/// Filling up a snapshot leaves no code twice, and its rows are those of the snapshot and the
/// lacking ones of the other.
proof fn lemma_merged_rows(current: Seq<CountryView>, fallback: Seq<CountryView>)
    requires
        distinct_codes(current),
        distinct_codes(fallback),
    ensures
        distinct_codes(merged(current, fallback)),
        forall|c: CountryView| #[trigger]
            merged(current, fallback).contains(c) == (current.contains(c) || fallback.contains(c)
                && !has_code(current, c.code)),
{
    broadcast use vstd::seq_lib::group_filter_ensures;

    let lacking = |c: CountryView| !has_code(current, c.code);
    let added = fallback.filter(lacking);
    let all = merged(current, fallback);
    lemma_filter_distinct(fallback, lacking);
    assert forall|i: int, j: int| 0 <= i < j < all.len() implies (#[trigger] all[i]).code != (
    #[trigger] all[j]).code by {
        if j < current.len() {
            assert(current[i].code != current[j].code);
        } else if i < current.len() {
            assert(lacking(added[j - current.len()]));
            assert(current[i].code != all[j].code);
        } else {
            assert(added[i - current.len()].code != added[j - current.len()].code);
        }
    }
    assert forall|c: CountryView| #[trigger] all.contains(c) == (current.contains(c)
        || fallback.contains(c) && !has_code(current, c.code)) by {
        if all.contains(c) {
            let k = choose|k: int| 0 <= k < all.len() && all[k] == c;
            if k < current.len() {
                assert(current[k] == c);
            } else {
                assert(added[k - current.len()] == c);
                fallback.lemma_filter_contains_rev(lacking, c);
                assert(lacking(c));
            }
        }
        if current.contains(c) {
            let k = choose|k: int| 0 <= k < current.len() && current[k] == c;
            assert(all[k] == c);
        }
        if fallback.contains(c) && !has_code(current, c.code) {
            let k = choose|k: int| 0 <= k < fallback.len() && fallback[k] == c;
            assert(lacking(fallback[k]));
            assert(added.contains(c));
            let m = choose|m: int| 0 <= m < added.len() && added[m] == c;
            assert(all[current.len() + m] == c);
        }
    }
}

/// Whether two replies differ only in the order of their rows, and have no code twice.
pub open spec fn same_reply(a: Option<Vec<CountryCount>>, b: Option<Vec<CountryCount>>) -> bool {
    match (a, b) {
        (Some(s), Some(t)) => same_rows(views(s@), views(t@)),
        (None, None) => true,
        _ => false,
    }
}

/// The snapshot that is ranked has the same rows, whatever the order of those it is made from.
proof fn lemma_completed_rows(
    current: Seq<CountryView>,
    other_current: Seq<CountryView>,
    fallback: Option<Vec<CountryCount>>,
    other_fallback: Option<Vec<CountryCount>>,
)
    requires
        same_rows(current, other_current),
        same_reply(fallback, other_fallback),
    ensures
        same_rows(completed(current, fallback), completed(other_current, other_fallback)),
{
    lemma_same_rows(current, other_current);
    if current.len() < COMPLETE_SNAPSHOT && fallback is Some {
        let extra = views(fallback->0@);
        let other_extra = views(other_fallback->0@);
        lemma_same_rows(extra, other_extra);
        lemma_merged_rows(current, extra);
        lemma_merged_rows(other_current, other_extra);
        let s = merged(current, extra);
        let t = merged(other_current, other_extra);
        lemma_same_rows(s, s);
        lemma_same_rows(t, t);
        assert forall|c: CountryView| s.contains(c) == #[trigger] t.contains(c) by {
            assert(current.contains(c) == other_current.contains(c));
            assert(extra.contains(c) == other_extra.contains(c));
            assert(has_code(current, c.code) == has_code(other_current, c.code));
        }
        lemma_same_items(s, t);
    }
}

/// The order of the rows does not matter: where the current snapshot, the last complete one and
/// the earlier ones differ from others only in the order of their rows, and none has a code twice,
/// the gainers are the same, and so are the losers.
pub proof fn lemma_row_order_irrelevant(
    current: Seq<CountryView>,
    other_current: Seq<CountryView>,
    fallback: Option<Vec<CountryCount>>,
    other_fallback: Option<Vec<CountryCount>>,
    past: Seq<Option<Vec<CountryCount>>>,
    other_past: Seq<Option<Vec<CountryCount>>>,
)
    requires
        same_rows(current, other_current),
        same_reply(fallback, other_fallback),
        past.len() == other_past.len(),
        forall|w: int| 0 <= w < past.len() ==> same_reply(#[trigger] past[w], other_past[w]),
    ensures
        ({
            let rows = completed(current, fallback);
            let other_rows = completed(other_current, other_fallback);
            let list = movers(rows, past_counts(past));
            let other_list = movers(other_rows, past_counts(other_past));
            &&& all_deltas_fit(rows, past_counts(past)) == all_deltas_fit(
                other_rows,
                past_counts(other_past),
            )
            &&& first(ranked(list, order_of::<Mover, Gains>()), LIST_LENGTH as nat) == first(
                ranked(other_list, order_of::<Mover, Gains>()),
                LIST_LENGTH as nat,
            )
            &&& first(ranked(list, order_of::<Mover, Losses>()), LIST_LENGTH as nat) == first(
                ranked(other_list, order_of::<Mover, Losses>()),
                LIST_LENGTH as nat,
            )
        }),
{
    let rows = completed(current, fallback);
    let other_rows = completed(other_current, other_fallback);
    lemma_completed_rows(current, other_current, fallback, other_fallback);
    lemma_same_rows(rows, other_rows);
    let counts = past_counts(past);
    assert forall|w: int| 0 <= w < past.len() implies #[trigger] counts[w] == past_counts(
        other_past,
    )[w] by {
        assert(same_reply(past[w], other_past[w]));
        if past[w] is Some {
            lemma_counts_of_same_rows(views(past[w]->0@), views(other_past[w]->0@));
        }
    }
    assert(counts =~= past_counts(other_past));
    if all_deltas_fit(rows, counts) {
        lemma_fit_of_rows(rows, other_rows, counts);
    }
    if all_deltas_fit(other_rows, counts) {
        lemma_fit_of_rows(other_rows, rows, counts);
    }
    let list = movers(rows, counts);
    let other_list = movers(other_rows, counts);
    lemma_movers_distinct(rows, counts);
    lemma_movers_distinct(other_rows, counts);
    lemma_movers_decided(list);
    lemma_movers_decided(other_list);
    assert forall|m: MoverView| list.contains(m) == #[trigger] other_list.contains(m) by {
        if list.contains(m) {
            lemma_mover_of_rows(rows, other_rows, counts, m);
        }
        if other_list.contains(m) {
            lemma_mover_of_rows(other_rows, rows, counts, m);
        }
    }
    lemma_same_items(list, other_list);
    lemma_ranking_stable(list, other_list);
}

proof fn lemma_fit_of_rows(
    rows: Seq<CountryView>,
    other_rows: Seq<CountryView>,
    past: Seq<Option<Map<Seq<char>, i32>>>,
)
    requires
        forall|c: CountryView| rows.contains(c) == #[trigger] other_rows.contains(c),
        all_deltas_fit(rows, past),
    ensures
        all_deltas_fit(other_rows, past),
{
    assert forall|i: int| 0 <= i < other_rows.len() implies deltas_fit(
        #[trigger] other_rows[i],
        past,
    ) by {
        assert(other_rows.contains(other_rows[i]));
        let k = choose|k: int| 0 <= k < rows.len() && rows[k] == other_rows[i];
        assert(deltas_fit(rows[k], past));
    }
}

proof fn lemma_mover_of_rows(
    rows: Seq<CountryView>,
    other_rows: Seq<CountryView>,
    past: Seq<Option<Map<Seq<char>, i32>>>,
    m: MoverView,
)
    requires
        distinct_codes(rows),
        distinct_codes(other_rows),
        forall|c: CountryView| rows.contains(c) == #[trigger] other_rows.contains(c),
        movers(rows, past).contains(m),
    ensures
        movers(other_rows, past).contains(m),
{
    lemma_distinct_last_rows(rows, rows.len());
    lemma_distinct_last_rows(other_rows, other_rows.len());
    assert(last_per_code(rows) =~= rows);
    assert(last_per_code(other_rows) =~= other_rows);
    let list = movers(rows, past);
    let k = choose|k: int| 0 <= k < list.len() && list[k] == m;
    assert(rows.contains(rows[k]));
    assert(other_rows.contains(rows[k]));
    let j = choose|j: int| 0 <= j < other_rows.len() && other_rows[j] == rows[k];
    assert(movers(other_rows, past)[j] == m);
}

/// What a country shows over each window, told from the earlier snapshot of that window alone:
/// where the snapshot has a row of the country's code, the current count less that of the last such
/// row, and where it is missing or has no such row, nothing.
pub proof fn lemma_mover_deltas(
    current: Seq<CountryCount>,
    past: Seq<Option<Vec<CountryCount>>>,
    m: Mover,
)
    requires
        all_deltas_fit(views(current), past_counts(past)),
        movers(views(current), past_counts(past)).contains(m@),
    ensures
        m.deltas@.len() == past.len(),
        forall|w: int|
            0 <= w < past.len() && past[w] is None ==> #[trigger] m.deltas@[w] is None,
        forall|w: int|
            #![trigger m.deltas@[w]]
            0 <= w < past.len() ==> (past[w] matches Some(rows) ==> ((forall|k: int|
                0 <= k < rows@.len() ==> (#[trigger] rows@[k]).country_code@ != m.code@)
                ==> m.deltas@[w] is None)),
        forall|w: int, k: int|
            #![trigger m.deltas@[w], past[w]->0@[k]]
            0 <= w < past.len() && past[w] is Some && 0 <= k < past[w]->0@.len()
                && past[w]->0@[k].country_code@ == m.code@ && (forall|later: int|
                k < later < past[w]->0@.len() ==> (#[trigger] past[w]->0@[later]).country_code@
                    != m.code@) ==> m.deltas@[w] is Some && m.deltas@[w]->0 == m.current
                - past[w]->0@[k].provider_count,
{
    let counts = past_counts(past);
    let rows = views(current);
    let i = lemma_mover_origin(current, past, m@);
    assert(rows[i] == current[i]@);
    assert(deltas_fit(rows[i], counts));
    assert forall|w: int| 0 <= w < past.len() implies #[trigger] m.deltas@[w] == delta_against(
        counts[w],
        rows[i],
    ) by {}
    assert forall|w: int|
        #![trigger m.deltas@[w]]
        0 <= w < past.len() implies (past[w] matches Some(earlier) ==> ((forall|k: int|
        0 <= k < earlier@.len() ==> (#[trigger] earlier@[k]).country_code@ != m.code@)
        ==> m.deltas@[w] is None)) by {
        if let Some(earlier) = past[w] {
            lemma_earlier_count(earlier@, m.code@);
        }
    }
    assert forall|w: int, k: int|
        #![trigger m.deltas@[w], past[w]->0@[k]]
        0 <= w < past.len() && past[w] is Some && 0 <= k < past[w]->0@.len()
            && past[w]->0@[k].country_code@ == m.code@ && (forall|later: int|
            k < later < past[w]->0@.len() ==> (#[trigger] past[w]->0@[later]).country_code@
                != m.code@) implies m.deltas@[w] is Some && m.deltas@[w]->0 == m.current
        - past[w]->0@[k].provider_count by {
        lemma_earlier_count(past[w]->0@, m.code@);
        assert(counts[w] is Some);
        assert(counts[w]->0.contains_key(rows[i].code));
        assert(fits_i32(rows[i].count - counts[w]->0[rows[i].code]));
    }
}

/// The row that a country of the list comes from: the last one of its code.
pub proof fn lemma_mover_origin(
    current: Seq<CountryCount>,
    past: Seq<Option<Vec<CountryCount>>>,
    m: MoverView,
) -> (i: int)
    requires
        movers(views(current), past_counts(past)).contains(m),
    ensures
        0 <= i < current.len(),
        m.code == current[i].country_code@,
        m.name == current[i].country_name@,
        m.current == current[i].provider_count,
        m == mover_of(current[i]@, past_counts(past)),
        forall|later: int|
            i < later < current.len() ==> (#[trigger] current[later]).country_code@ != m.code,
{
    let rows = views(current);
    let list = movers(rows, past_counts(past));
    let k = choose|k: int| 0 <= k < list.len() && list[k] == m;
    let i = lemma_last_rows_come_from(rows, k);
    assert(rows[i] == current[i]@);
    assert forall|later: int| i < later < current.len() implies (
    #[trigger] current[later]).country_code@ != m.code by {
        assert(rows[later] == current[later]@);
        assert(rows[later].code != rows[i].code);
    }
    i
}

/// Every country of the snapshot is in the list, with its last row.
pub proof fn lemma_every_country_listed(
    current: Seq<CountryCount>,
    past: Seq<Option<Vec<CountryCount>>>,
    i: int,
) -> (k: int)
    requires
        0 <= i < current.len(),
        forall|later: int|
            i < later < current.len() ==> (#[trigger] current[later]).country_code@
                != current[i].country_code@,
    ensures
        0 <= k < movers(views(current), past_counts(past)).len(),
        movers(views(current), past_counts(past))[k].code == current[i].country_code@,
        movers(views(current), past_counts(past))[k].name == current[i].country_name@,
        movers(views(current), past_counts(past))[k].current == current[i].provider_count,
{
    let rows = views(current);
    assert(rows[i] == current[i]@);
    assert(is_last_of_code(rows, i)) by {
        assert forall|j: int| i < j < rows.len() implies (#[trigger] rows[j]).code
            != rows[i].code by {
            assert(current[j].country_code@ != current[i].country_code@);
        }
    }
    lemma_last_per_code(rows);
    let kept = last_per_code(rows);
    assert(kept.contains(rows[i]));
    let k = choose|k: int| 0 <= k < kept.len() && kept[k] == rows[i];
    assert(movers(rows, past_counts(past))[k] == mover_of(kept[k], past_counts(past)));
    k
}

/// The snapshot that is ranked: with eighty rows or more, or where no complete one is known, the
/// current one; else the current one, and behind it, in their order, all rows of the complete one
/// whose code no current row has.
pub proof fn lemma_completed(current: Seq<CountryCount>, fallback: Option<Vec<CountryCount>>)
    ensures
        current.len() >= 80 || fallback is None ==> completed(views(current), fallback) == views(
            current,
        ),
        current.len() < 80 ==> (fallback matches Some(extra) ==> completed(views(current), fallback)
            == views(current) + views(extra@).filter(
            |c: CountryView|
                forall|i: int|
                    0 <= i < current.len() ==> (#[trigger] current[i]).country_code@ != c.code,
        )),
{
    if let Some(extra) = fallback {
        let lacking = |c: CountryView| !has_code(views(current), c.code);
        let others = |c: CountryView|
            forall|i: int|
                0 <= i < current.len() ==> (#[trigger] current[i]).country_code@ != c.code;
        assert forall|code: Seq<char>| #[trigger]
            has_code(views(current), code) == exists|i: int|
                0 <= i < current.len() && (#[trigger] current[i]).country_code@ == code by {
            if has_code(views(current), code) {
                let i = choose|i: int|
                    0 <= i < views(current).len() && (#[trigger] views(current)[i]).code == code;
                assert(current[i].country_code@ == code);
            }
            if exists|i: int|
                0 <= i < current.len() && (#[trigger] current[i]).country_code@ == code {
                let i = choose|i: int|
                    0 <= i < current.len() && (#[trigger] current[i]).country_code@ == code;
                assert(views(current)[i].code == code);
            }
        }
        assert(lacking =~= others);
    }
}

/// The gainers shown, by their numbers: fifty of the list, or all where there are fewer; each once;
/// by falling changes over a day, where none counts as zero, and where those are the same by rising
/// codes; and whoever is left out comes behind in the same way.
pub proof fn lemma_gainers_shown(list: Seq<MoverView>, gainers: Seq<MoverView>)
    requires
        forall|i: int, j: int|
            0 <= i < j < list.len() ==> (#[trigger] list[i]).code != (#[trigger] list[j]).code,
        forall|i: int| 0 <= i < list.len() ==> (#[trigger] list[i]).deltas.len() == 15,
        gainers == first(ranked(list, order_of::<Mover, Gains>()), LIST_LENGTH as nat),
    ensures
        gainers.len() == if list.len() < 50 {
            list.len()
        } else {
            50
        },
        gainers.no_duplicates(),
        forall|i: int| 0 <= i < gainers.len() ==> list.contains(#[trigger] gainers[i]),
        ({
            let change = |m: MoverView|
                match m.deltas[6] {
                    Some(delta) => delta as int,
                    None => 0,
                };
            &&& forall|i: int, j: int|
                0 <= i < j < gainers.len() ==> change(#[trigger] gainers[i]) > change(
                    #[trigger] gainers[j],
                ) || change(gainers[i]) == change(gainers[j]) && text_before(
                    gainers[i].code,
                    gainers[j].code,
                )
            &&& forall|m: MoverView, i: int|
                #![trigger list.contains(m), gainers[i]]
                list.contains(m) && !gainers.contains(m) && 0 <= i < gainers.len() ==> change(
                    gainers[i],
                ) > change(m) || change(gainers[i]) == change(m) && text_before(
                    gainers[i].code,
                    m.code,
                )
        }),
{
    lemma_gainers(list);
    lemma_shown_from_list(list, order_of::<Mover, Gains>(), gainers);
}

/// The losers shown, by their numbers: fifty of the list, or all where there are fewer; each once;
/// by rising changes over a day, where none counts as zero, and where those are the same by rising
/// codes; and whoever is left out comes behind in the same way.
pub proof fn lemma_losers_shown(list: Seq<MoverView>, losers: Seq<MoverView>)
    requires
        forall|i: int, j: int|
            0 <= i < j < list.len() ==> (#[trigger] list[i]).code != (#[trigger] list[j]).code,
        forall|i: int| 0 <= i < list.len() ==> (#[trigger] list[i]).deltas.len() == 15,
        losers == first(ranked(list, order_of::<Mover, Losses>()), LIST_LENGTH as nat),
    ensures
        losers.len() == if list.len() < 50 {
            list.len()
        } else {
            50
        },
        losers.no_duplicates(),
        forall|i: int| 0 <= i < losers.len() ==> list.contains(#[trigger] losers[i]),
        ({
            let change = |m: MoverView|
                match m.deltas[6] {
                    Some(delta) => delta as int,
                    None => 0,
                };
            &&& forall|i: int, j: int|
                0 <= i < j < losers.len() ==> change(#[trigger] losers[i]) < change(
                    #[trigger] losers[j],
                ) || change(losers[i]) == change(losers[j]) && text_before(
                    losers[i].code,
                    losers[j].code,
                )
            &&& forall|m: MoverView, i: int|
                #![trigger list.contains(m), losers[i]]
                list.contains(m) && !losers.contains(m) && 0 <= i < losers.len() ==> change(
                    losers[i],
                ) < change(m) || change(losers[i]) == change(m) && text_before(
                    losers[i].code,
                    m.code,
                )
        }),
{
    lemma_losers(list);
    lemma_shown_from_list(list, order_of::<Mover, Losses>(), losers);
}

/// What is shown of a ranked list without repetition is in the list, and each item once.
proof fn lemma_shown_from_list(
    list: Seq<MoverView>,
    ahead: spec_fn(MoverView, MoverView) -> bool,
    shown: Seq<MoverView>,
)
    requires
        distinct_mover_codes(list),
        shown == first(ranked(list, ahead), LIST_LENGTH as nat),
    ensures
        shown.no_duplicates(),
        forall|i: int| 0 <= i < shown.len() ==> list.contains(#[trigger] shown[i]),
        forall|i: int|
            0 <= i < shown.len() && (forall|k: int|
                0 <= k < list.len() ==> (#[trigger] list[k]).deltas.len() == 15) ==> (
            #[trigger] shown[i]).deltas.len() == 15,
{
    broadcast use group_to_multiset_ensures;

    let all = ranked(list, ahead);
    lemma_ranked_items(list, ahead);
    lemma_movers_decided(list);
    list.lemma_multiset_has_no_duplicates();
    all.lemma_multiset_has_no_duplicates_conv();
    assert forall|i: int| 0 <= i < shown.len() implies list.contains(#[trigger] shown[i]) by {
        assert(shown[i] == all[i]);
        assert(all.contains(all[i]));
        assert(list.to_multiset().count(all[i]) > 0);
    }
}

/// The windows, in minutes.
pub proof fn lemma_windows()
    ensures
        window_table().map_values(|w: WindowView| w.minutes as int) == seq![
            15int,
            60,
            120,
            180,
            360,
            720,
            1440,
            2880,
            4320,
            5760,
            7200,
            8640,
            10080,
            20160,
            43200,
        ],
{
}

/// Every country shown among the gainers or the losers is one of the list of all countries with
/// their changes.
pub proof fn lemma_shown_in_list(
    current: Seq<CountryCount>,
    past: Seq<Option<Vec<CountryCount>>>,
    answer: MoversDetailed,
)
    requires
        views(answer.gainers@) == first(
            ranked(movers(views(current), past_counts(past)), order_of::<Mover, Gains>()),
            LIST_LENGTH as nat,
        ),
        views(answer.losers@) == first(
            ranked(movers(views(current), past_counts(past)), order_of::<Mover, Losses>()),
            LIST_LENGTH as nat,
        ),
    ensures
        forall|i: int|
            0 <= i < answer.gainers@.len() ==> movers(views(current), past_counts(past)).contains(
                (#[trigger] answer.gainers@[i])@,
            ),
        forall|i: int|
            0 <= i < answer.losers@.len() ==> movers(views(current), past_counts(past)).contains(
                (#[trigger] answer.losers@[i])@,
            ),
        forall|i: int|
            0 <= i < movers(views(current), past_counts(past)).len() ==> (#[trigger] movers(
                views(current),
                past_counts(past),
            )[i]).deltas.len() == past.len(),
{
    let list = movers(views(current), past_counts(past));
    lemma_movers_distinct(views(current), past_counts(past));
    lemma_shown_from_list(list, order_of::<Mover, Gains>(), views(answer.gainers@));
    lemma_shown_from_list(list, order_of::<Mover, Losses>(), views(answer.losers@));
    assert forall|i: int| 0 <= i < answer.gainers@.len() implies list.contains(
        (#[trigger] answer.gainers@[i])@,
    ) by {
        assert(views(answer.gainers@)[i] == answer.gainers@[i]@);
    }
    assert forall|i: int| 0 <= i < answer.losers@.len() implies list.contains(
        (#[trigger] answer.losers@[i])@,
    ) by {
        assert(views(answer.losers@)[i] == answer.losers@[i]@);
    }
}

/// When the changes can be shown: the count of every row less that of the last row of its code, in
/// the earlier snapshot of each window, has to be an `i32`.
pub proof fn lemma_all_deltas_fit(
    current: Seq<CountryCount>,
    past: Seq<Option<Vec<CountryCount>>>,
)
    ensures
        all_deltas_fit(views(current), past_counts(past)) <==> forall|i: int, w: int, k: int|
            #![trigger current[i], past[w]->0@[k]]
            0 <= i < current.len() && 0 <= w < past.len() && past[w] is Some && 0 <= k
                < past[w]->0@.len() && past[w]->0@[k].country_code@ == current[i].country_code@ && (
            forall|later: int|
                k < later < past[w]->0@.len() ==> (#[trigger] past[w]->0@[later]).country_code@
                    != current[i].country_code@) ==> -0x8000_0000 <= current[i].provider_count
                - past[w]->0@[k].provider_count <= 0x7fff_ffff,
{
    let rows = views(current);
    let counts = past_counts(past);
    if all_deltas_fit(rows, counts) {
        assert forall|i: int, w: int, k: int|
            #![trigger current[i], past[w]->0@[k]]
            0 <= i < current.len() && 0 <= w < past.len() && past[w] is Some && 0 <= k
                < past[w]->0@.len() && past[w]->0@[k].country_code@ == current[i].country_code@ && (
            forall|later: int|
                k < later < past[w]->0@.len() ==> (#[trigger] past[w]->0@[later]).country_code@
                    != current[i].country_code@) implies -0x8000_0000 <= current[i].provider_count
            - past[w]->0@[k].provider_count <= 0x7fff_ffff by {
            lemma_earlier_count(past[w]->0@, current[i].country_code@);
            assert(rows[i] == current[i]@);
            assert(deltas_fit(rows[i], counts));
            assert(counts[w] is Some);
        }
    }
    if forall|i: int, w: int, k: int|
        #![trigger current[i], past[w]->0@[k]]
        0 <= i < current.len() && 0 <= w < past.len() && past[w] is Some && 0 <= k
            < past[w]->0@.len() && past[w]->0@[k].country_code@ == current[i].country_code@ && (
        forall|later: int|
            k < later < past[w]->0@.len() ==> (#[trigger] past[w]->0@[later]).country_code@
                != current[i].country_code@) ==> -0x8000_0000 <= current[i].provider_count
            - past[w]->0@[k].provider_count <= 0x7fff_ffff {
        assert forall|i: int| 0 <= i < rows.len() implies deltas_fit(
            #[trigger] rows[i],
            counts,
        ) by {
            assert(rows[i] == current[i]@);
            assert forall|w: int| 0 <= w < counts.len() implies (#[trigger] counts[w] matches Some(
                earlier,
            ) ==> (earlier.contains_key(rows[i].code) ==> fits_i32(
                rows[i].count - earlier[rows[i].code],
            ))) by {
                if counts[w] is Some && counts[w]->0.contains_key(rows[i].code) {
                    let code = current[i].country_code@;
                    lemma_earlier_count(past[w]->0@, code);
                    let k = lemma_last_row_of_code(past[w]->0@, code);
                    assert(past[w]->0@[k].country_code@ == code);
                }
            }
        }
    }
}

}
