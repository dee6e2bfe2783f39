//! Provider totals by region, with their changes over a day.
//!
//! Which region a country belongs to is given with each request: one region for each row of the
//! current snapshot.

use vstd::hash_map::StringHashMap;
use vstd::prelude::*;
use vstd::seq_lib::{group_to_multiset_ensures, lemma_fold_left_permutation};

use crate::clock::{can_move, checked_time_offset, moved_timestamp};
use crate::models::{fits_i32, CountryCount, CountryView, Failure};
use crate::ranking::{
    lemma_ranked_in_order, lemma_ranked_items, order_of, rank, ranked, ranks, views, Order,
};
use crate::risk::DAY_MINUTES;
use crate::snapshot::{counts_by_code, index_by_code};

verus! {

/// The providers of one region, and their change over a day.
#[derive(Debug, PartialEq, Eq)]
pub struct Region {
    pub region: String,
    pub total: i32,
    pub delta_24h: i32,
}

/// What a [`Region`] says.
#[verifier::ext_equal]
pub struct RegionView {
    pub region: Seq<char>,
    pub total: i32,
    pub delta: i32,
}

impl View for Region {
    type V = RegionView;

    open spec fn view(&self) -> RegionView {
        RegionView { region: self.region@, total: self.total, delta: self.delta_24h }
    }
}

/// The providers in one region among the first `n` rows.
pub open spec fn region_total(
    rows: Seq<CountryView>,
    regions: Seq<Seq<char>>,
    region: Seq<char>,
    n: nat,
) -> int
    decreases n,
{
    if n == 0 {
        0
    } else {
        region_total(rows, regions, region, (n - 1) as nat) + if regions[n - 1] == region {
            rows[n - 1].count as int
        } else {
            0
        }
    }
}

/// The change of a row's count; none where there is no earlier count.
pub open spec fn row_change(row: CountryView, past: Map<Seq<char>, i32>) -> int {
    if past.contains_key(row.code) {
        row.count - past[row.code]
    } else {
        0
    }
}

/// The change of the counts in one region among the first `n` rows.
pub open spec fn region_change(
    rows: Seq<CountryView>,
    regions: Seq<Seq<char>>,
    past: Map<Seq<char>, i32>,
    region: Seq<char>,
    n: nat,
) -> int
    decreases n,
{
    if n == 0 {
        0
    } else {
        region_change(rows, regions, past, region, (n - 1) as nat) + if regions[n - 1] == region {
            row_change(rows[n - 1], past)
        } else {
            0
        }
    }
}

/// The different regions among the first `n`, in the order in which they come up.
pub open spec fn distinct_regions(regions: Seq<Seq<char>>, n: nat) -> Seq<Seq<char>>
    decreases n,
{
    if n == 0 {
        Seq::empty()
    } else if distinct_regions(regions, (n - 1) as nat).contains(regions[n - 1]) {
        distinct_regions(regions, (n - 1) as nat)
    } else {
        distinct_regions(regions, (n - 1) as nat).push(regions[n - 1])
    }
}

/// The regions of the first `n` rows with their totals and changes.
pub open spec fn region_rows(
    rows: Seq<CountryView>,
    regions: Seq<Seq<char>>,
    past: Map<Seq<char>, i32>,
    n: nat,
) -> Seq<RegionView> {
    let names = distinct_regions(regions, n);
    Seq::new(
        names.len(),
        |k: int|
            RegionView {
                region: names[k],
                total: region_total(rows, regions, names[k], n) as i32,
                delta: region_change(rows, regions, past, names[k], n) as i32,
            },
    )
}

/// Whether every sum on the way to the totals and changes is an `i32`.
pub open spec fn region_sums_fit(
    rows: Seq<CountryView>,
    regions: Seq<Seq<char>>,
    past: Map<Seq<char>, i32>,
) -> bool {
    &&& forall|i: int| 0 <= i < rows.len() ==> fits_i32(row_change(#[trigger] rows[i], past))
    &&& forall|region: Seq<char>, n: nat|
        n <= rows.len() ==> fits_i32(#[trigger] region_total(rows, regions, region, n))
    &&& forall|region: Seq<char>, n: nat|
        n <= rows.len() ==> fits_i32(#[trigger] region_change(rows, regions, past, region, n))
}

/// The largest total first.
pub struct LargestTotal;

impl Order<Region> for LargestTotal {
    open spec fn ahead(a: RegionView, b: RegionView) -> bool {
        a.total > b.total
    }

    fn is_ahead(a: &Region, b: &Region) -> (r: bool) {
        a.total > b.total
    }
}

/// A region that has not come up has neither providers nor a change.
proof fn lemma_absent_region(
    rows: Seq<CountryView>,
    regions: Seq<Seq<char>>,
    past: Map<Seq<char>, i32>,
    region: Seq<char>,
    n: nat,
)
    requires
        n <= rows.len(),
        rows.len() == regions.len(),
        !distinct_regions(regions, n).contains(region),
    ensures
        region_total(rows, regions, region, n) == 0,
        region_change(rows, regions, past, region, n) == 0,
    decreases n,
{
    if n > 0 {
        let fewer = distinct_regions(regions, (n - 1) as nat);
        let names = distinct_regions(regions, n);
        if fewer.contains(region) {
            let k = choose|k: int| 0 <= k < fewer.len() && fewer[k] == region;
            assert(names[k] == region);
        }
        if regions[n - 1] == region {
            if !fewer.contains(regions[n - 1]) {
                assert(names[fewer.len() as int] == region);
            }
        }
        lemma_absent_region(rows, regions, past, region, (n - 1) as nat);
    }
}

/// No region comes up twice.
proof fn lemma_distinct_regions(regions: Seq<Seq<char>>, n: nat)
    requires
        n <= regions.len(),
    ensures
        distinct_regions(regions, n).no_duplicates(),
    decreases n,
{
    if n > 0 {
        lemma_distinct_regions(regions, (n - 1) as nat);
    }
}

/// The place of a region in a list.
fn find_region(list: &Vec<Region>, region: &String) -> (at: Option<usize>)
    ensures
        match at {
            Some(k) => k < list@.len() && list@[k as int].region@ == region@,
            None => forall|k: int|
                0 <= k < list@.len() ==> (#[trigger] list@[k]).region@ != region@,
        },
{
    let mut k: usize = 0;
    while k < list.len()
        invariant
            k <= list@.len(),
            forall|j: int| 0 <= j < k ==> (#[trigger] list@[j]).region@ != region@,
        decreases list@.len() - k,
    {
        if list[k].region == *region {
            return Some(k);
        }
        k = k + 1;
    }
    None
}

/// The regions with their totals and changes, in the order in which they come up; `None` where a
/// sum is no `i32`.
fn tally(
    current: &Vec<CountryCount>,
    regions: &Vec<String>,
    past: &Vec<CountryCount>,
) -> (list: Option<Vec<Region>>)
    requires
        regions@.len() == current@.len(),
    ensures
        list is Some <==> region_sums_fit(
            views(current@),
            views(regions@),
            counts_by_code(views(past@)),
        ),
        list matches Some(found) ==> views(found@) == region_rows(
            views(current@),
            views(regions@),
            counts_by_code(views(past@)),
            current@.len(),
        ),
{
    let before: StringHashMap<i32> = index_by_code(past);
    let ghost counts = before@;
    let ghost rows = views(current@);
    let ghost names = views(regions@);
    let mut list: Vec<Region> = Vec::new();
    let mut i: usize = 0;
    assert(views(list@) =~= region_rows(rows, names, counts, 0));
    while i < current.len()
        invariant
            counts == before@,
            counts == counts_by_code(views(past@)),
            rows == views(current@),
            names == views(regions@),
            regions@.len() == current@.len(),
            i <= current@.len(),
            views(list@) == region_rows(rows, names, counts, i as nat),
            forall|j: int| 0 <= j < i ==> fits_i32(row_change(#[trigger] rows[j], counts)),
            forall|region: Seq<char>, n: nat|
                n <= i ==> fits_i32(#[trigger] region_total(rows, names, region, n)),
            forall|region: Seq<char>, n: nat|
                n <= i ==> fits_i32(#[trigger] region_change(rows, names, counts, region, n)),
        decreases current@.len() - i,
    {
        let row: &CountryCount = &current[i];
        let ghost region = names[i as int];
        let ghost found = distinct_regions(names, i as nat);
        let ghost so_far = list@;
        proof {
            assert(rows[i as int] == row@);
            assert(region == regions@[i as int]@);
            lemma_distinct_regions(names, i as nat);
        }
        let change: i32 = match before.get(row.country_code.as_str()) {
            Some(count) => match row.provider_count.checked_sub(*count) {
                Some(change) => change,
                None => {
                    assert(!fits_i32(row_change(rows[i as int], counts)));
                    return None;
                },
            },
            None => 0,
        };
        assert(change == row_change(rows[i as int], counts));
        let at: Option<usize> = find_region(&list, &regions[i]);
        let (total, delta): (i32, i32) = match at {
            Some(k) => (list[k].total, list[k].delta_24h),
            None => (0, 0),
        };
        proof {
            assert(views(list@).len() == found.len());
            assert(list@.len() == found.len());
            assert forall|k: int|
                0 <= k < found.len() implies list@[k].region@ == #[trigger] found[k]
                && list@[k].total == region_total(rows, names, found[k], i as nat)
                && list@[k].delta_24h == region_change(rows, names, counts, found[k], i as nat) by {
                assert(views(list@)[k] == region_rows(rows, names, counts, i as nat)[k]);
                assert(fits_i32(region_total(rows, names, found[k], i as nat)));
                assert(fits_i32(region_change(rows, names, counts, found[k], i as nat)));
            }
            if at is Some {
                assert(found[at->0 as int] == region);
            } else {
                assert forall|k: int| 0 <= k < found.len() implies found[k] != region by {
                    assert(list@[k].region@ != regions@[i as int]@);
                }
                lemma_absent_region(rows, names, counts, region, i as nat);
            }
            assert(total == region_total(rows, names, region, i as nat));
            assert(delta == region_change(rows, names, counts, region, i as nat));
        }
        let new_total: i32 = match total.checked_add(row.provider_count) {
            Some(sum) => sum,
            None => {
                assert(!fits_i32(region_total(rows, names, region, (i + 1) as nat)));
                return None;
            },
        };
        let new_delta: i32 = match delta.checked_add(change) {
            Some(sum) => sum,
            None => {
                assert(!fits_i32(region_change(rows, names, counts, region, (i + 1) as nat)));
                return None;
            },
        };
        let updated: Region = Region {
            region: regions[i].clone(),
            total: new_total,
            delta_24h: new_delta,
        };
        match at {
            Some(k) => {
                list.set(k, updated);
            },
            None => {
                list.push(updated);
            },
        }
        proof {
            let next = (i + 1) as nat;
            assert forall|other: Seq<char>, n: nat| n <= next implies fits_i32(
                #[trigger] region_total(rows, names, other, n),
            ) by {
                if n == next {
                    assert(fits_i32(region_total(rows, names, other, i as nat)));
                }
            }
            assert forall|other: Seq<char>, n: nat| n <= next implies fits_i32(
                #[trigger] region_change(rows, names, counts, other, n),
            ) by {
                if n == next {
                    assert(fits_i32(region_change(rows, names, counts, other, i as nat)));
                }
            }
            let after = distinct_regions(names, next);
            let want = region_rows(rows, names, counts, next);
            if at is Some {
                assert(found.contains(region));
                assert(after == found);
            } else {
                assert(!found.contains(region));
                assert(after == found.push(region));
            }
            assert(list@.len() == after.len());
            assert forall|k: int| 0 <= k < after.len() implies #[trigger] views(list@)[k]
                == want[k] by {
                if k < found.len() {
                    assert(so_far[k].region@ == found[k]);
                    assert(after[k] == found[k]);
                    if found[k] != region {
                        assert(list@[k] == so_far[k]);
                    } else {
                        assert(k == at->0);
                    }
                }
            }
            assert(views(list@) =~= want);
        }
        i = i + 1;
    }
    Some(list)
}

/// The request once the latest timestamp is known: the snapshot of `latest` is asked for.
#[derive(Debug, PartialEq, Eq)]
pub struct RegionsLatest {
    pub latest: String,
    pub day_ago: String,
}

/// The request once the current snapshot is known: the timestamp nearest to `day_ago` is asked
/// for.
#[derive(Debug, PartialEq, Eq)]
pub struct RegionsCurrent {
    pub current: Vec<CountryCount>,
    pub day_ago: String,
}

/// The request once the earlier timestamp is known: its snapshot is asked for.
#[derive(Debug, PartialEq, Eq)]
pub struct RegionsPast {
    pub current: Vec<CountryCount>,
    pub past_at: String,
}

/// Takes the reply to the query for the latest timestamp; `None` where it failed.
pub fn api_regions(latest: Option<String>) -> (next: Result<RegionsLatest, Failure>)
    ensures
        next matches Err(Failure::Database) <==> latest is None,
        next matches Err(Failure::ClockRange) <==> latest is Some && !can_move(
            latest->0@,
            -DAY_MINUTES,
        ),
        next matches Ok(asked) ==> {
            &&& asked.latest@ == latest->0@
            &&& asked.day_ago@ == moved_timestamp(latest->0@, -DAY_MINUTES)
        },
{
    match latest {
        Some(latest) => match checked_time_offset(latest.as_str(), -DAY_MINUTES) {
            Some(day_ago) => Ok(RegionsLatest { latest, day_ago }),
            None => Err(Failure::ClockRange),
        },
        None => Err(Failure::Database),
    }
}

impl RegionsLatest {
    /// Takes the reply to the query for the current snapshot.
    pub fn with_current(self, current: Option<Vec<CountryCount>>) -> (next: Result<
        RegionsCurrent,
        Failure,
    >)
        ensures
            next == match current {
                Some(rows) => Ok::<RegionsCurrent, Failure>(
                    RegionsCurrent { current: rows, day_ago: self.day_ago },
                ),
                None => Err(Failure::Database),
            },
    {
        match current {
            Some(rows) => Ok(RegionsCurrent { current: rows, day_ago: self.day_ago }),
            None => Err(Failure::Database),
        }
    }
}

impl RegionsCurrent {
    /// Takes the reply to the query for the timestamp nearest to a day ago.
    pub fn with_nearest(self, nearest: Option<String>) -> (next: Result<RegionsPast, Failure>)
        ensures
            next == match nearest {
                Some(past_at) => Ok::<RegionsPast, Failure>(
                    RegionsPast { current: self.current, past_at },
                ),
                None => Err(Failure::Database),
            },
    {
        match nearest {
            Some(past_at) => Ok(RegionsPast { current: self.current, past_at }),
            None => Err(Failure::Database),
        }
    }
}

impl RegionsPast {
    /// Decides whether every sum that the answer needs is an `i32`.
    pub fn sums_fit(&self, regions: &Vec<String>, past: &Vec<CountryCount>) -> (fit: bool)
        requires
            regions@.len() == self.current@.len(),
        ensures
            fit == region_sums_fit(
                views(self.current@),
                views(regions@),
                counts_by_code(views(past@)),
            ),
    {
        tally(&self.current, regions, past).is_some()
    }

    /// Takes the region of each row of the current snapshot and the reply to the query for the
    /// earlier one, and answers: the regions, those with the largest totals first. Regions with
    /// the same total come in the order in which they come up in the current snapshot.
    pub fn finish(self, regions: Vec<String>, past: Option<Vec<CountryCount>>) -> (answer: Result<
        Vec<Region>,
        Failure,
    >)
        requires
            regions@.len() == self.current@.len(),
            past matches Some(rows) ==> region_sums_fit(
                views(self.current@),
                views(regions@),
                counts_by_code(views(rows@)),
            ),
        ensures
            answer is Ok <==> past is Some,
            answer matches Err(failure) ==> failure == Failure::Database,
            answer matches Ok(list) ==> views(list@) == ranked(
                region_rows(
                    views(self.current@),
                    views(regions@),
                    counts_by_code(views(past->0@)),
                    self.current@.len(),
                ),
                order_of::<Region, LargestTotal>(),
            ),
    {
        match past {
            Some(rows) => match tally(&self.current, &regions, &rows) {
                Some(list) => Ok(rank::<Region, LargestTotal>(list)),
                None => Ok(Vec::new()),
            },
            None => Err(Failure::Database),
        }
    }
}

/// The providers of all of the first `n` rows.
pub open spec fn overall_total(rows: Seq<CountryView>, n: nat) -> int
    decreases n,
{
    if n == 0 {
        0
    } else {
        overall_total(rows, (n - 1) as nat) + rows[n - 1].count
    }
}

/// The sum of the totals of some regions over the first `n` rows.
pub open spec fn sum_of_totals(
    list: Seq<Seq<char>>,
    rows: Seq<CountryView>,
    regions: Seq<Seq<char>>,
    n: nat,
) -> int
    decreases list.len(),
{
    if list.len() == 0 {
        0
    } else {
        sum_of_totals(list.drop_last(), rows, regions, n) + region_total(
            rows,
            regions,
            list.last(),
            n,
        )
    }
}

/// One more row adds its count to the sum once, where its region is in the list.
proof fn lemma_sum_with_row(
    list: Seq<Seq<char>>,
    rows: Seq<CountryView>,
    regions: Seq<Seq<char>>,
    n: nat,
)
    requires
        0 < n <= rows.len(),
        list.no_duplicates(),
    ensures
        sum_of_totals(list, rows, regions, n) == sum_of_totals(
            list,
            rows,
            regions,
            (n - 1) as nat,
        ) + if list.contains(regions[n - 1]) {
            rows[n - 1].count as int
        } else {
            0
        },
    decreases list.len(),
{
    if list.len() > 0 {
        let shorter = list.drop_last();
        lemma_sum_with_row(shorter, rows, regions, n);
        let region = regions[n - 1];
        if list.last() == region {
            assert(list[list.len() - 1] == region);
            if shorter.contains(region) {
                let k = choose|k: int| 0 <= k < shorter.len() && shorter[k] == region;
                assert(list[k] == region);
            }
        } else {
            if shorter.contains(region) {
                let k = choose|k: int| 0 <= k < shorter.len() && shorter[k] == region;
                assert(list[k] == region);
            }
            if list.contains(region) {
                let k = choose|k: int| 0 <= k < list.len() && list[k] == region;
                assert(shorter[k] == region);
            }
        }
    }
}

proof fn lemma_sum_of_no_rows(
    list: Seq<Seq<char>>,
    rows: Seq<CountryView>,
    regions: Seq<Seq<char>>,
)
    ensures
        sum_of_totals(list, rows, regions, 0) == 0,
    decreases list.len(),
{
    if list.len() > 0 {
        lemma_sum_of_no_rows(list.drop_last(), rows, regions);
    }
}

proof fn lemma_regions_come_up(regions: Seq<Seq<char>>, n: nat, i: int)
    requires
        0 <= i < n <= regions.len(),
    ensures
        distinct_regions(regions, n).contains(regions[i]),
    decreases n,
{
    let fewer = distinct_regions(regions, (n - 1) as nat);
    let names = distinct_regions(regions, n);
    if i == n - 1 {
        if !fewer.contains(regions[i]) {
            assert(names[fewer.len() as int] == regions[i]);
        }
    } else {
        lemma_regions_come_up(regions, (n - 1) as nat, i);
        let k = choose|k: int| 0 <= k < fewer.len() && fewer[k] == regions[i];
        assert(names[k] == regions[i]);
    }
}

proof fn lemma_totals_of_rows(
    list: Seq<Seq<char>>,
    rows: Seq<CountryView>,
    regions: Seq<Seq<char>>,
    n: nat,
)
    requires
        n <= rows.len(),
        rows.len() == regions.len(),
        list.no_duplicates(),
        forall|i: int| 0 <= i < regions.len() ==> list.contains(#[trigger] regions[i]),
    ensures
        sum_of_totals(list, rows, regions, n) == overall_total(rows, n),
    decreases n,
{
    if n == 0 {
        lemma_sum_of_no_rows(list, rows, regions);
    } else {
        lemma_totals_of_rows(list, rows, regions, (n - 1) as nat);
        lemma_sum_with_row(list, rows, regions, n);
        assert(list.contains(regions[n - 1]));
    }
}

/// Every provider is counted in exactly one region: the totals of the regions add up to the total
/// of the snapshot, and no region is shown twice.
pub proof fn lemma_regions_cover_snapshot(rows: Seq<CountryView>, regions: Seq<Seq<char>>)
    requires
        rows.len() == regions.len(),
    ensures
        distinct_regions(regions, rows.len()).no_duplicates(),
        sum_of_totals(distinct_regions(regions, rows.len()), rows, regions, rows.len())
            == overall_total(rows, rows.len()),
{
    let list = distinct_regions(regions, rows.len());
    lemma_distinct_regions(regions, rows.len());
    assert forall|i: int| 0 <= i < regions.len() implies list.contains(#[trigger] regions[i]) by {
        lemma_regions_come_up(regions, rows.len(), i);
    }
    lemma_totals_of_rows(list, rows, regions, rows.len());
}

/// The regions are shown with falling totals, each as often as it comes up: once.
pub proof fn lemma_regions_in_order(
    rows: Seq<CountryView>,
    regions: Seq<Seq<char>>,
    past: Map<Seq<char>, i32>,
)
    requires
        rows.len() == regions.len(),
    ensures
        ({
            let all = region_rows(rows, regions, past, rows.len());
            let shown = ranked(all, order_of::<Region, LargestTotal>());
            &&& shown.to_multiset() == all.to_multiset()
            &&& forall|i: int, j: int|
                0 <= i < j < shown.len() ==> (#[trigger] shown[i]).total >= (
                #[trigger] shown[j]).total
            &&& forall|i: int, j: int|
                0 <= i < j < all.len() ==> (#[trigger] all[i]).region != (#[trigger] all[j]).region
        }),
{
    let order = order_of::<Region, LargestTotal>();
    let all = region_rows(rows, regions, past, rows.len());
    let shown = ranked(all, order);
    assert(ranks(order));
    lemma_ranked_items(all, order);
    lemma_ranked_in_order(all, order);
    lemma_distinct_regions(regions, rows.len());
    assert forall|i: int, j: int| 0 <= i < j < shown.len() implies (#[trigger] shown[i]).total >= (
    #[trigger] shown[j]).total by {
        assert(!order(shown[j], shown[i]));
    }
}

/// The total of a region is the sum of the counts of all of its rows, and no others.
pub proof fn lemma_region_total_is_sum(
    current: Seq<CountryCount>,
    regions: Seq<String>,
    region: Seq<char>,
    n: nat,
)
    requires
        current.len() == regions.len(),
        n <= current.len(),
    ensures
        region_total(views(current), views(regions), region, n) == current.zip_with(regions).take(
            n as int,
        ).fold_left(
            0int,
            |sum: int, row: (CountryCount, String)|
                if row.1@ == region {
                    sum + row.0.provider_count
                } else {
                    sum
                },
        ),
    decreases n,
{
    let all = current.zip_with(regions);
    if n > 0 {
        lemma_region_total_is_sum(current, regions, region, (n - 1) as nat);
        assert(all.take(n as int).drop_last() =~= all.take(n - 1));
        assert(all.take(n as int).last() == (current[n - 1], regions[n - 1]));
        assert(views(current)[n - 1] == current[n - 1]@);
        assert(views(regions)[n - 1] == regions[n - 1]@);
    }
}

/// The change of a region is the sum, over all of its rows that have an earlier count and no
/// others, of the count less the earlier one.
pub proof fn lemma_region_change_is_sum(
    current: Seq<CountryCount>,
    regions: Seq<String>,
    past: Map<Seq<char>, i32>,
    region: Seq<char>,
    n: nat,
)
    requires
        current.len() == regions.len(),
        n <= current.len(),
    ensures
        region_change(views(current), views(regions), past, region, n) == current.zip_with(
            regions,
        ).take(n as int).fold_left(
            0int,
            |sum: int, row: (CountryCount, String)|
                if row.1@ == region && past.contains_key(row.0.country_code@) {
                    sum + (row.0.provider_count - past[row.0.country_code@])
                } else {
                    sum
                },
        ),
    decreases n,
{
    let all = current.zip_with(regions);
    if n > 0 {
        lemma_region_change_is_sum(current, regions, past, region, (n - 1) as nat);
        assert(all.take(n as int).drop_last() =~= all.take(n - 1));
        assert(all.take(n as int).last() == (current[n - 1], regions[n - 1]));
        assert(views(current)[n - 1] == current[n - 1]@);
        assert(views(regions)[n - 1] == regions[n - 1]@);
    }
}

/// Where all rows of a region have an earlier count, the change of the region is its total less the
/// sum of those earlier counts.
pub proof fn lemma_region_change_of_known(
    current: Seq<CountryCount>,
    regions: Seq<String>,
    past: Map<Seq<char>, i32>,
    region: Seq<char>,
    n: nat,
)
    requires
        current.len() == regions.len(),
        n <= current.len(),
        forall|i: int|
            0 <= i < n && (#[trigger] regions[i])@ == region ==> past.contains_key(
                current[i].country_code@,
            ),
    ensures
        region_change(views(current), views(regions), past, region, n) == region_total(
            views(current),
            views(regions),
            region,
            n,
        ) - current.zip_with(regions).take(n as int).fold_left(
            0int,
            |sum: int, row: (CountryCount, String)|
                if row.1@ == region {
                    sum + past[row.0.country_code@]
                } else {
                    sum
                },
        ),
    decreases n,
{
    let all = current.zip_with(regions);
    if n > 0 {
        lemma_region_change_of_known(current, regions, past, region, (n - 1) as nat);
        assert(all.take(n as int).drop_last() =~= all.take(n - 1));
        assert(all.take(n as int).last() == (current[n - 1], regions[n - 1]));
        assert(views(current)[n - 1] == current[n - 1]@);
        assert(views(regions)[n - 1] == regions[n - 1]@);
        assert(regions[n - 1]@ == region ==> past.contains_key(current[n - 1].country_code@));
    }
}

/// When the sums of the regions can be made: the change of every row that has an earlier count, and
/// the total and the change of every region over the first rows, have to be `i32`.
pub proof fn lemma_region_sums_fit(
    current: Seq<CountryCount>,
    regions: Seq<String>,
    past: Map<Seq<char>, i32>,
)
    requires
        current.len() == regions.len(),
    ensures
        region_sums_fit(views(current), views(regions), past) <==> {
            &&& forall|i: int|
                0 <= i < current.len() && past.contains_key((#[trigger] current[i]).country_code@)
                    ==> -0x8000_0000 <= current[i].provider_count - past[current[i].country_code@]
                    <= 0x7fff_ffff
            &&& forall|region: Seq<char>, n: nat|
                n <= current.len() ==> -0x8000_0000 <= #[trigger] region_total(
                    views(current),
                    views(regions),
                    region,
                    n,
                ) <= 0x7fff_ffff
            &&& forall|region: Seq<char>, n: nat|
                n <= current.len() ==> -0x8000_0000 <= #[trigger] region_change(
                    views(current),
                    views(regions),
                    past,
                    region,
                    n,
                ) <= 0x7fff_ffff
        },
{
    let rows = views(current);
    if region_sums_fit(rows, views(regions), past) {
        assert forall|i: int|
            0 <= i < current.len() && past.contains_key(
                (#[trigger] current[i]).country_code@,
            ) implies -0x8000_0000 <= current[i].provider_count - past[current[i].country_code@]
            <= 0x7fff_ffff by {
            assert(fits_i32(row_change(rows[i], past)));
        }
    }
    if forall|i: int|
        0 <= i < current.len() && past.contains_key((#[trigger] current[i]).country_code@)
            ==> -0x8000_0000 <= current[i].provider_count - past[current[i].country_code@]
            <= 0x7fff_ffff {
        assert forall|i: int| 0 <= i < rows.len() implies fits_i32(
            row_change(#[trigger] rows[i], past),
        ) by {
            assert(rows[i] == current[i]@);
        }
    }
}

/// What is shown of the regions: each region that a row has, and no other, once; its total is the
/// sum of the counts of its rows, and its change the sum of the changes of those of its rows that
/// have an earlier count; and the totals fall.
pub proof fn lemma_regions_shown(
    current: Seq<CountryCount>,
    regions: Seq<String>,
    past: Map<Seq<char>, i32>,
    answer: Seq<Region>,
)
    requires
        current.len() == regions.len(),
        region_sums_fit(views(current), views(regions), past),
        views(answer) == ranked(
            region_rows(views(current), views(regions), past, current.len()),
            order_of::<Region, LargestTotal>(),
        ),
    ensures
        forall|j: int|
            0 <= j < answer.len() ==> exists|i: int|
                0 <= i < regions.len() && (#[trigger] regions[i])@ == (
                #[trigger] answer[j]).region@,
        forall|i: int|
            0 <= i < regions.len() ==> exists|j: int|
                0 <= j < answer.len() && (#[trigger] answer[j]).region@ == (
                #[trigger] regions[i])@,
        forall|j: int, k: int|
            0 <= j < k < answer.len() ==> (#[trigger] answer[j]).region@ != (
            #[trigger] answer[k]).region@,
        forall|j: int, k: int|
            0 <= j < k < answer.len() ==> (#[trigger] answer[j]).total >= (
            #[trigger] answer[k]).total,
        forall|j: int|
            0 <= j < answer.len() ==> {
                let region = (#[trigger] answer[j]).region@;
                &&& answer[j].total == current.zip_with(regions).fold_left(
                    0int,
                    |sum: int, row: (CountryCount, String)|
                        if row.1@ == region {
                            sum + row.0.provider_count
                        } else {
                            sum
                        },
                )
                &&& answer[j].delta_24h == current.zip_with(regions).fold_left(
                    0int,
                    |sum: int, row: (CountryCount, String)|
                        if row.1@ == region && past.contains_key(row.0.country_code@) {
                            sum + (row.0.provider_count - past[row.0.country_code@])
                        } else {
                            sum
                        },
                )
            },
{
    broadcast use group_to_multiset_ensures;

    let rows = views(current);
    let names = views(regions);
    let n = current.len();
    let order = order_of::<Region, LargestTotal>();
    let found = distinct_regions(names, n);
    let all = region_rows(rows, names, past, n);
    let shown = views(answer);
    lemma_regions_in_order(rows, names, past);
    lemma_ranked_items(all, order);
    lemma_distinct_regions(names, n);
    assert(all.no_duplicates()) by {
        assert forall|i: int, j: int|
            0 <= i < all.len() && 0 <= j < all.len() && i != j implies all[i] != all[j] by {
            assert(found[i] != found[j]);
        }
    }
    all.lemma_multiset_has_no_duplicates();
    shown.lemma_multiset_has_no_duplicates_conv();
    assert(current.zip_with(regions).take(n as int) =~= current.zip_with(regions));
    assert forall|j: int| 0 <= j < answer.len() implies exists|k: int|
        0 <= k < all.len() && all[k] == (#[trigger] answer[j])@ by {
        assert(shown[j] == answer[j]@);
        assert(shown.contains(answer[j]@));
        assert(all.to_multiset().count(answer[j]@) > 0);
        assert(all.contains(answer[j]@));
    }
    assert forall|j: int| 0 <= j < answer.len() implies exists|i: int|
        0 <= i < regions.len() && (#[trigger] regions[i])@ == (#[trigger] answer[j]).region@ by {
        let k = choose|k: int| 0 <= k < all.len() && all[k] == answer[j]@;
        lemma_regions_have_rows(names, n, k);
        let i = choose|i: int| 0 <= i < n && #[trigger] names[i] == found[k];
        assert(regions[i]@ == answer[j].region@);
    }
    assert forall|i: int| 0 <= i < regions.len() implies exists|j: int|
        0 <= j < answer.len() && (#[trigger] answer[j]).region@ == (#[trigger] regions[i])@ by {
        lemma_regions_come_up(names, n, i);
        let k = choose|k: int| 0 <= k < found.len() && found[k] == names[i];
        assert(all.contains(all[k]));
        assert(shown.to_multiset().count(all[k]) > 0);
        assert(shown.contains(all[k]));
        let j = choose|j: int| 0 <= j < shown.len() && shown[j] == all[k];
        assert(answer[j].region@ == regions[i]@);
    }
    assert forall|j: int, k: int| 0 <= j < k < answer.len() implies (
    #[trigger] answer[j]).region@ != (#[trigger] answer[k]).region@ by {
        let a = choose|a: int| 0 <= a < all.len() && all[a] == answer[j]@;
        let b = choose|b: int| 0 <= b < all.len() && all[b] == answer[k]@;
        assert(shown[j] == answer[j]@ && shown[k] == answer[k]@);
        assert(shown[j] != shown[k]);
        assert(a != b);
        assert(found[a] != found[b]);
    }
    assert forall|j: int, k: int| 0 <= j < k < answer.len() implies (
    #[trigger] answer[j]).total >= (#[trigger] answer[k]).total by {
        assert(shown[j] == answer[j]@ && shown[k] == answer[k]@);
        assert(shown[j].total >= shown[k].total);
    }
    assert forall|j: int| 0 <= j < answer.len() implies {
        let region = (#[trigger] answer[j]).region@;
        &&& answer[j].total == current.zip_with(regions).fold_left(
            0int,
            |sum: int, row: (CountryCount, String)|
                if row.1@ == region {
                    sum + row.0.provider_count
                } else {
                    sum
                },
        )
        &&& answer[j].delta_24h == current.zip_with(regions).fold_left(
            0int,
            |sum: int, row: (CountryCount, String)|
                if row.1@ == region && past.contains_key(row.0.country_code@) {
                    sum + (row.0.provider_count - past[row.0.country_code@])
                } else {
                    sum
                },
        )
    } by {
        let k = choose|k: int| 0 <= k < all.len() && all[k] == answer[j]@;
        let region = answer[j].region@;
        assert(found[k] == region);
        assert(fits_i32(region_total(rows, names, region, n)));
        assert(fits_i32(region_change(rows, names, past, region, n)));
        lemma_region_total_is_sum(current, regions, region, n);
        lemma_region_change_is_sum(current, regions, past, region, n);
    }
}

/// Every region that comes up is that of a row.
proof fn lemma_regions_have_rows(regions: Seq<Seq<char>>, n: nat, k: int)
    requires
        n <= regions.len(),
        0 <= k < distinct_regions(regions, n).len(),
    ensures
        exists|i: int| 0 <= i < n && #[trigger] regions[i] == distinct_regions(regions, n)[k],
    decreases n,
{
    let fewer = distinct_regions(regions, (n - 1) as nat);
    if k < fewer.len() {
        lemma_regions_have_rows(regions, (n - 1) as nat, k);
    } else {
        assert(regions[n - 1] == distinct_regions(regions, n)[k]);
    }
}

/// The rows of a snapshot with their changes as counts.
spec fn changes_of(rows: Seq<CountryView>, past: Map<Seq<char>, i32>) -> Seq<CountryView> {
    rows.map_values(
        |c: CountryView|
            CountryView { code: c.code, name: c.name, count: row_change(c, past) as i32 },
    )
}

proof fn lemma_change_as_total(
    rows: Seq<CountryView>,
    regions: Seq<Seq<char>>,
    past: Map<Seq<char>, i32>,
    region: Seq<char>,
    n: nat,
)
    requires
        n <= rows.len(),
        forall|i: int| 0 <= i < rows.len() ==> fits_i32(row_change(#[trigger] rows[i], past)),
    ensures
        region_total(changes_of(rows, past), regions, region, n) == region_change(
            rows,
            regions,
            past,
            region,
            n,
        ),
    decreases n,
{
    if n > 0 {
        lemma_change_as_total(rows, regions, past, region, (n - 1) as nat);
        assert(fits_i32(row_change(rows[n - 1], past)));
    }
}

/// The totals of the first regions, one by one.
proof fn lemma_totals_of_list(
    rows: Seq<CountryView>,
    regions: Seq<Seq<char>>,
    list: Seq<Seq<char>>,
    all: Seq<RegionView>,
    n: nat,
    k: nat,
)
    requires
        k <= list.len(),
        list.len() == all.len(),
        forall|i: int|
            0 <= i < all.len() ==> (#[trigger] all[i]).total == region_total(
                rows,
                regions,
                list[i],
                n,
            ),
    ensures
        all.take(k as int).fold_left(0int, |sum: int, r: RegionView| sum + r.total)
            == sum_of_totals(list.take(k as int), rows, regions, n),
    decreases k,
{
    if k > 0 {
        lemma_totals_of_list(rows, regions, list, all, n, (k - 1) as nat);
        assert(all.take(k as int).drop_last() =~= all.take(k - 1));
        assert(list.take(k as int).drop_last() =~= list.take(k - 1));
        assert(all[k - 1].total == region_total(rows, regions, list[k - 1], n));
    }
}

proof fn lemma_changes_of_list(
    rows: Seq<CountryView>,
    regions: Seq<Seq<char>>,
    list: Seq<Seq<char>>,
    all: Seq<RegionView>,
    n: nat,
    k: nat,
)
    requires
        k <= list.len(),
        list.len() == all.len(),
        forall|i: int|
            0 <= i < all.len() ==> (#[trigger] all[i]).delta == region_total(
                rows,
                regions,
                list[i],
                n,
            ),
    ensures
        all.take(k as int).fold_left(0int, |sum: int, r: RegionView| sum + r.delta)
            == sum_of_totals(list.take(k as int), rows, regions, n),
    decreases k,
{
    if k > 0 {
        lemma_changes_of_list(rows, regions, list, all, n, (k - 1) as nat);
        assert(all.take(k as int).drop_last() =~= all.take(k - 1));
        assert(list.take(k as int).drop_last() =~= list.take(k - 1));
        assert(all[k - 1].delta == region_total(rows, regions, list[k - 1], n));
    }
}

proof fn lemma_overall_total_is_sum(current: Seq<CountryCount>, n: nat)
    requires
        n <= current.len(),
    ensures
        overall_total(views(current), n) == current.take(n as int).fold_left(
            0int,
            |sum: int, row: CountryCount| sum + row.provider_count,
        ),
    decreases n,
{
    if n > 0 {
        lemma_overall_total_is_sum(current, (n - 1) as nat);
        assert(current.take(n as int).drop_last() =~= current.take(n - 1));
        assert(views(current)[n - 1] == current[n - 1]@);
    }
}

proof fn lemma_overall_change_is_sum(
    current: Seq<CountryCount>,
    past: Map<Seq<char>, i32>,
    n: nat,
)
    requires
        n <= current.len(),
        forall|i: int|
            0 <= i < current.len() ==> fits_i32(row_change(#[trigger] views(current)[i], past)),
    ensures
        overall_total(changes_of(views(current), past), n) == current.take(n as int).fold_left(
            0int,
            |sum: int, row: CountryCount|
                if past.contains_key(row.country_code@) {
                    sum + (row.provider_count - past[row.country_code@])
                } else {
                    sum
                },
        ),
    decreases n,
{
    if n > 0 {
        lemma_overall_change_is_sum(current, past, (n - 1) as nat);
        assert(current.take(n as int).drop_last() =~= current.take(n - 1));
        assert(fits_i32(row_change(views(current)[n - 1], past)));
        assert(views(current)[n - 1] == current[n - 1]@);
    }
}

/// Nothing is lost and nothing counted twice: the totals of the regions shown add up to the counts
/// of all rows, and their changes to the changes of all rows that have an earlier count.
pub proof fn lemma_regions_add_up(
    current: Seq<CountryCount>,
    regions: Seq<String>,
    past: Map<Seq<char>, i32>,
    answer: Seq<Region>,
)
    requires
        current.len() == regions.len(),
        region_sums_fit(views(current), views(regions), past),
        views(answer) == ranked(
            region_rows(views(current), views(regions), past, current.len()),
            order_of::<Region, LargestTotal>(),
        ),
    ensures
        answer.fold_left(0int, |sum: int, r: Region| sum + r.total) == current.fold_left(
            0int,
            |sum: int, row: CountryCount| sum + row.provider_count,
        ),
        answer.fold_left(0int, |sum: int, r: Region| sum + r.delta_24h) == current.fold_left(
            0int,
            |sum: int, row: CountryCount|
                if past.contains_key(row.country_code@) {
                    sum + (row.provider_count - past[row.country_code@])
                } else {
                    sum
                },
        ),
{
    let rows = views(current);
    let names = views(regions);
    let n = current.len();
    let order = order_of::<Region, LargestTotal>();
    let found = distinct_regions(names, n);
    let all = region_rows(rows, names, past, n);
    let moved = changes_of(rows, past);
    let add_total = |sum: int, r: RegionView| sum + r.total;
    let add_delta = |sum: int, r: RegionView| sum + r.delta;
    lemma_ranked_items(all, order);
    lemma_regions_cover_snapshot(rows, names);
    lemma_regions_cover_snapshot(moved, names);
    assert forall|i: int| 0 <= i < all.len() implies (#[trigger] all[i]).total == region_total(
        rows,
        names,
        found[i],
        n,
    ) by {
        assert(fits_i32(region_total(rows, names, found[i], n)));
    }
    assert forall|i: int| 0 <= i < all.len() implies (#[trigger] all[i]).delta == region_total(
        moved,
        names,
        found[i],
        n,
    ) by {
        assert(fits_i32(region_change(rows, names, past, found[i], n)));
        lemma_change_as_total(rows, names, past, found[i], n);
    }
    lemma_totals_of_list(rows, names, found, all, n, all.len());
    lemma_changes_of_list(moved, names, found, all, n, all.len());
    assert(all.take(all.len() as int) =~= all);
    assert(found.take(found.len() as int) =~= found);
    lemma_fold_left_permutation(views(answer), all, add_total, 0);
    lemma_fold_left_permutation(views(answer), all, add_delta, 0);
    lemma_sums_of_views(answer, answer.len());
    assert(answer.take(answer.len() as int) =~= answer);
    assert(views(answer).take(answer.len() as int) =~= views(answer));
    lemma_overall_total_is_sum(current, n);
    lemma_overall_change_is_sum(current, past, n);
    assert(current.take(n as int) =~= current);
}

proof fn lemma_sums_of_views(answer: Seq<Region>, n: nat)
    requires
        n <= answer.len(),
    ensures
        answer.take(n as int).fold_left(0int, |sum: int, r: Region| sum + r.total) == views(
            answer,
        ).take(n as int).fold_left(0int, |sum: int, r: RegionView| sum + r.total),
        answer.take(n as int).fold_left(0int, |sum: int, r: Region| sum + r.delta_24h) == views(
            answer,
        ).take(n as int).fold_left(0int, |sum: int, r: RegionView| sum + r.delta),
    decreases n,
{
    if n > 0 {
        lemma_sums_of_views(answer, (n - 1) as nat);
        assert(answer.take(n as int).drop_last() =~= answer.take(n - 1));
        assert(views(answer).take(n as int).drop_last() =~= views(answer).take(n - 1));
        assert(views(answer)[n - 1] == answer[n - 1]@);
    }
}

}
