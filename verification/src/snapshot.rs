//! A snapshot by country code.

use vstd::hash_map::StringHashMap;
use vstd::prelude::*;
use vstd::seq_lib::group_to_multiset_ensures;

use crate::models::{CountryCount, CountryView};
use crate::ranking::views;

verus! {

/// The provider counts of a snapshot by country code. Where a code is there more than once, its
/// last row counts.
pub open spec fn counts_by_code(rows: Seq<CountryView>) -> Map<Seq<char>, i32>
    decreases rows.len(),
{
    if rows.len() == 0 {
        Map::empty()
    } else {
        counts_by_code(rows.drop_last()).insert(rows.last().code, rows.last().count)
    }
}

/// Whether a row is the last one of its code.
pub open spec fn is_last_of_code(rows: Seq<CountryView>, i: int) -> bool {
    &&& 0 <= i < rows.len()
    &&& forall|j: int| i < j < rows.len() ==> (#[trigger] rows[j]).code != rows[i].code
}

/// The count of a code is that of its last row.
pub proof fn lemma_count_of_last_row(rows: Seq<CountryView>, i: int)
    requires
        is_last_of_code(rows, i),
    ensures
        counts_by_code(rows).contains_key(rows[i].code),
        counts_by_code(rows)[rows[i].code] == rows[i].count,
    decreases rows.len(),
{
    if i < rows.len() - 1 {
        let shorter = rows.drop_last();
        assert forall|j: int| i < j < shorter.len() implies (#[trigger] shorter[j]).code
            != shorter[i].code by {
            assert(rows[j].code != rows[i].code);
        }
        lemma_count_of_last_row(shorter, i);
        assert(rows[rows.len() - 1].code != rows[i].code);
    }
}

/// A code has a count only where a row has that code.
pub proof fn lemma_counted_codes(rows: Seq<CountryView>, code: Seq<char>)
    requires
        counts_by_code(rows).contains_key(code),
    ensures
        exists|i: int| 0 <= i < rows.len() && (#[trigger] rows[i]).code == code,
    decreases rows.len(),
{
    if rows.last().code == code {
        assert(rows[rows.len() - 1].code == code);
    } else {
        lemma_counted_codes(rows.drop_last(), code);
        let i = choose|i: int|
            0 <= i < rows.drop_last().len() && (#[trigger] rows.drop_last()[i]).code == code;
        assert(rows[i].code == code);
    }
}

/// The provider counts of a snapshot by country code.
pub(crate) fn index_by_code(rows: &Vec<CountryCount>) -> (counts: StringHashMap<i32>)
    ensures
        counts@ == counts_by_code(views(rows@)),
{
    let mut counts: StringHashMap<i32> = StringHashMap::new();
    let ghost all = views(rows@);
    let mut i: usize = 0;
    assert(all.take(0) =~= Seq::<CountryView>::empty());
    while i < rows.len()
        invariant
            all == views(rows@),
            i <= rows@.len(),
            counts@ == counts_by_code(all.take(i as int)),
        decreases rows@.len() - i,
    {
        counts.insert(rows[i].country_code.clone(), rows[i].provider_count);
        assert(all.take(i + 1).drop_last() =~= all.take(i as int));
        i = i + 1;
    }
    assert(all.take(i as int) =~= all);
    counts
}

/// Whether a snapshot has a row of a code.
pub open spec fn has_code(rows: Seq<CountryView>, code: Seq<char>) -> bool {
    exists|i: int| 0 <= i < rows.len() && (#[trigger] rows[i]).code == code
}

/// Those of the first `n` rows that are the last ones of their codes, in order.
pub open spec fn last_rows(rows: Seq<CountryView>, n: nat) -> Seq<CountryView>
    decreases n,
{
    if n == 0 {
        Seq::empty()
    } else if is_last_of_code(rows, n - 1) {
        last_rows(rows, (n - 1) as nat).push(rows[n - 1])
    } else {
        last_rows(rows, (n - 1) as nat)
    }
}

/// One row for each code of a snapshot, the last one.
pub open spec fn last_per_code(rows: Seq<CountryView>) -> Seq<CountryView> {
    last_rows(rows, rows.len())
}

/// Whether no two rows have the same code.
pub open spec fn distinct_codes(rows: Seq<CountryView>) -> bool {
    forall|i: int, j: int|
        0 <= i < j < rows.len() ==> (#[trigger] rows[i]).code != (#[trigger] rows[j]).code
}

/// Where each of the last rows comes from.
proof fn lemma_last_rows_origin(rows: Seq<CountryView>, n: nat, k: int)
    requires
        n <= rows.len(),
        0 <= k < last_rows(rows, n).len(),
    ensures
        exists|i: int|
            0 <= i < n && #[trigger] rows[i] == last_rows(rows, n)[k] && is_last_of_code(rows, i),
    decreases n,
{
    let fewer = last_rows(rows, (n - 1) as nat);
    if k < fewer.len() {
        lemma_last_rows_origin(rows, (n - 1) as nat, k);
    } else {
        assert(rows[n - 1] == last_rows(rows, n)[k]);
    }
}

proof fn lemma_last_rows_distinct(rows: Seq<CountryView>, n: nat)
    requires
        n <= rows.len(),
    ensures
        distinct_codes(last_rows(rows, n)),
    decreases n,
{
    if n > 0 {
        let fewer = last_rows(rows, (n - 1) as nat);
        let all = last_rows(rows, n);
        lemma_last_rows_distinct(rows, (n - 1) as nat);
        assert forall|i: int, j: int| 0 <= i < j < all.len() implies (#[trigger] all[i]).code != (
        #[trigger] all[j]).code by {
            lemma_last_rows_origin(rows, (n - 1) as nat, i);
            let k = choose|k: int|
                0 <= k < n - 1 && #[trigger] rows[k] == fewer[i] && is_last_of_code(rows, k);
            assert(rows[n - 1].code != rows[k].code);
            if j < fewer.len() {
                assert(fewer[i].code != fewer[j].code);
            }
        }
    }
}

proof fn lemma_last_rows_include(rows: Seq<CountryView>, n: nat, i: int)
    requires
        n <= rows.len(),
        0 <= i < n,
        is_last_of_code(rows, i),
    ensures
        last_rows(rows, n).contains(rows[i]),
    decreases n,
{
    let fewer = last_rows(rows, (n - 1) as nat);
    if i == n - 1 {
        assert(last_rows(rows, n)[fewer.len() as int] == rows[i]);
    } else {
        lemma_last_rows_include(rows, (n - 1) as nat, i);
        let k = choose|k: int| 0 <= k < fewer.len() && fewer[k] == rows[i];
        assert(last_rows(rows, n)[k] == rows[i]);
    }
}

/// Taking one row per code leaves no code twice, keeps every code, and for each code its last
/// row.
pub proof fn lemma_last_per_code(rows: Seq<CountryView>)
    ensures
        distinct_codes(last_per_code(rows)),
        forall|i: int|
            is_last_of_code(rows, i) ==> last_per_code(rows).contains(#[trigger] rows[i]),
        forall|c: CountryView| #[trigger]
            last_per_code(rows).contains(c) ==> counts_by_code(rows).contains_key(c.code)
                && counts_by_code(rows)[c.code] == c.count,
{
    lemma_last_rows_distinct(rows, rows.len());
    assert forall|i: int| is_last_of_code(rows, i) implies last_per_code(rows).contains(
        #[trigger] rows[i],
    ) by {
        lemma_last_rows_include(rows, rows.len(), i);
    }
    assert forall|c: CountryView| #[trigger] last_per_code(rows).contains(c) implies counts_by_code(
        rows,
    ).contains_key(c.code) && counts_by_code(rows)[c.code] == c.count by {
        let k = choose|k: int| 0 <= k < last_per_code(rows).len() && last_per_code(rows)[k] == c;
        lemma_last_rows_origin(rows, rows.len(), k);
        let i = choose|i: int|
            0 <= i < rows.len() && #[trigger] rows[i] == last_per_code(rows)[k] && is_last_of_code(
                rows,
                i,
            );
        lemma_count_of_last_row(rows, i);
    }
}

/// Whether two snapshots have the same rows, in whatever order, and no code twice.
pub open spec fn same_rows(s: Seq<CountryView>, t: Seq<CountryView>) -> bool {
    &&& distinct_codes(s)
    &&& s.to_multiset() == t.to_multiset()
}

/// Lists without repetition that hold the same items hold them equally often.
pub proof fn lemma_same_items<V>(s: Seq<V>, t: Seq<V>)
    requires
        s.no_duplicates(),
        t.no_duplicates(),
        forall|x: V| s.contains(x) == #[trigger] t.contains(x),
    ensures
        s.to_multiset() == t.to_multiset(),
{
    broadcast use group_to_multiset_ensures;

    s.lemma_multiset_has_no_duplicates();
    t.lemma_multiset_has_no_duplicates();
    assert forall|x: V| s.to_multiset().count(x) == t.to_multiset().count(x) by {
        assert(s.contains(x) == t.contains(x));
    }
    assert(s.to_multiset() =~= t.to_multiset());
}

/// What [`same_rows`] says, row by row: the second snapshot has no code twice either, and each row
/// of one is in the other.
pub proof fn lemma_same_rows(s: Seq<CountryView>, t: Seq<CountryView>)
    requires
        same_rows(s, t),
    ensures
        s.len() == t.len(),
        s.no_duplicates(),
        t.no_duplicates(),
        distinct_codes(t),
        forall|c: CountryView| s.contains(c) == #[trigger] t.contains(c),
        forall|code: Seq<char>| has_code(s, code) == #[trigger] has_code(t, code),
{
    broadcast use group_to_multiset_ensures;

    assert forall|i: int, j: int| 0 <= i < s.len() && 0 <= j < s.len() && i != j implies s[i]
        != s[j] by {
        if i < j {
            assert(s[i].code != s[j].code);
        } else {
            assert(s[j].code != s[i].code);
        }
    }
    assert(s.to_multiset().len() == s.len());
    assert(t.to_multiset().len() == t.len());
    s.lemma_multiset_has_no_duplicates();
    t.lemma_multiset_has_no_duplicates_conv();
    assert forall|c: CountryView| s.contains(c) == #[trigger] t.contains(c) by {
        assert(s.to_multiset().count(c) == t.to_multiset().count(c));
    }
    assert forall|i: int, j: int| 0 <= i < j < t.len() implies (#[trigger] t[i]).code != (
    #[trigger] t[j]).code by {
        assert(t.contains(t[i]) && t.contains(t[j]));
        let k = choose|k: int| 0 <= k < s.len() && s[k] == t[i];
        let m = choose|m: int| 0 <= m < s.len() && s[m] == t[j];
        assert(k != m);
        if k < m {
            assert(s[k].code != s[m].code);
        } else {
            assert(s[m].code != s[k].code);
        }
    }
    assert forall|code: Seq<char>| has_code(s, code) == #[trigger] has_code(t, code) by {
        if has_code(s, code) {
            let i = choose|i: int| 0 <= i < s.len() && (#[trigger] s[i]).code == code;
            assert(t.contains(s[i]));
            let j = choose|j: int| 0 <= j < t.len() && t[j] == s[i];
            assert(t[j].code == code);
        }
        if has_code(t, code) {
            let j = choose|j: int| 0 <= j < t.len() && (#[trigger] t[j]).code == code;
            assert(t.contains(t[j]));
            let i = choose|i: int| 0 <= i < s.len() && s[i] == t[j];
            assert(s[i].code == code);
        }
    }
}

/// A code of one snapshot has the same count in another one with the same rows.
proof fn lemma_same_count(s: Seq<CountryView>, t: Seq<CountryView>, code: Seq<char>)
    requires
        distinct_codes(s),
        distinct_codes(t),
        forall|c: CountryView| s.contains(c) == #[trigger] t.contains(c),
        counts_by_code(s).contains_key(code),
    ensures
        counts_by_code(t).contains_key(code),
        counts_by_code(s)[code] == counts_by_code(t)[code],
{
    lemma_counted_codes(s, code);
    let i = choose|i: int| 0 <= i < s.len() && (#[trigger] s[i]).code == code;
    assert(is_last_of_code(s, i));
    assert(s.contains(s[i]));
    assert(t.contains(s[i]));
    let j = choose|j: int| 0 <= j < t.len() && t[j] == s[i];
    assert(is_last_of_code(t, j));
    lemma_count_of_last_row(s, i);
    lemma_count_of_last_row(t, j);
}

/// The counts by code do not depend on the order of the rows.
pub proof fn lemma_counts_of_same_rows(s: Seq<CountryView>, t: Seq<CountryView>)
    requires
        same_rows(s, t),
    ensures
        counts_by_code(s) == counts_by_code(t),
{
    lemma_same_rows(s, t);
    let counts = counts_by_code(s);
    let other = counts_by_code(t);
    assert forall|code: Seq<char>| #[trigger]
        counts.dom().contains(code) implies other.dom().contains(code) && counts[code]
        == other[code] by {
        lemma_same_count(s, t, code);
    }
    assert forall|code: Seq<char>| #[trigger]
        other.dom().contains(code) implies counts.dom().contains(code) by {
        lemma_same_count(t, s, code);
    }
    assert(counts =~= other);
}

/// Where no code is there twice, taking one row per code keeps all rows.
pub proof fn lemma_distinct_last_rows(rows: Seq<CountryView>, n: nat)
    requires
        distinct_codes(rows),
        n <= rows.len(),
    ensures
        last_rows(rows, n) == rows.take(n as int),
    decreases n,
{
    if n > 0 {
        lemma_distinct_last_rows(rows, (n - 1) as nat);
        assert(is_last_of_code(rows, n - 1));
        assert(rows.take(n as int) =~= rows.take(n - 1).push(rows[n - 1]));
    } else {
        assert(last_rows(rows, n) =~= rows.take(n as int));
    }
}

/// Decides [`has_code`].
pub(crate) fn contains_code(rows: &Vec<CountryCount>, code: &String) -> (found: bool)
    ensures
        found == has_code(views(rows@), code@),
{
    let mut i: usize = 0;
    while i < rows.len()
        invariant
            i <= rows@.len(),
            forall|j: int| 0 <= j < i ==> (#[trigger] views(rows@)[j]).code != code@,
        decreases rows@.len() - i,
    {
        if rows[i].country_code == *code {
            assert(views(rows@)[i as int].code == code@);
            return true;
        }
        i = i + 1;
    }
    false
}

/// Decides [`is_last_of_code`].
pub(crate) fn is_last_row(rows: &Vec<CountryCount>, at: usize) -> (last: bool)
    requires
        at < rows@.len(),
    ensures
        last == is_last_of_code(views(rows@), at as int),
{
    let count: usize = rows.len();
    let mut i: usize = at + 1;
    while i < count
        invariant
            count == rows@.len(),
            at < i <= count,
            forall|j: int|
                at < j < i ==> (#[trigger] views(rows@)[j]).code != views(rows@)[at as int].code,
        decreases count - i,
    {
        if rows[i].country_code == rows[at].country_code {
            assert(views(rows@)[i as int].code == views(rows@)[at as int].code);
            return false;
        }
        i = i + 1;
    }
    true
}

/// The earlier count of a code is that of the last row with the code, however many rows there are,
/// and a code without a row has none.
pub proof fn lemma_earlier_count(rows: Seq<CountryCount>, code: Seq<char>)
    ensures
        forall|k: int|
            #![trigger rows[k]]
            0 <= k < rows.len() && rows[k].country_code@ == code && (forall|m: int|
                k < m < rows.len() ==> (#[trigger] rows[m]).country_code@ != code)
                ==> counts_by_code(views(rows)).contains_key(code) && counts_by_code(
                views(rows),
            )[code] == rows[k].provider_count,
        counts_by_code(views(rows)).contains_key(code) <==> exists|k: int|
            0 <= k < rows.len() && (#[trigger] rows[k]).country_code@ == code,
{
    let all = views(rows);
    assert forall|k: int|
        #![trigger rows[k]]
        0 <= k < rows.len() && rows[k].country_code@ == code && (forall|m: int|
            k < m < rows.len() ==> (#[trigger] rows[m]).country_code@
                != code) implies counts_by_code(all).contains_key(code) && counts_by_code(all)[code]
        == rows[k].provider_count by {
        assert forall|j: int| k < j < all.len() implies (#[trigger] all[j]).code
            != all[k].code by {
            assert(rows[j].country_code@ != code);
        }
        assert(is_last_of_code(all, k));
        lemma_count_of_last_row(all, k);
    }
    if exists|k: int| 0 <= k < rows.len() && (#[trigger] rows[k]).country_code@ == code {
        let last = lemma_last_row_of_code(rows, code);
        assert(rows[last].country_code@ == code);
    }
    if counts_by_code(all).contains_key(code) {
        lemma_counted_codes(all, code);
        let i = choose|i: int| 0 <= i < all.len() && (#[trigger] all[i]).code == code;
        assert(rows[i].country_code@ == code);
    }
}

/// The place of the last row of a code.
pub proof fn lemma_last_row_of_code(rows: Seq<CountryCount>, code: Seq<char>) -> (last: int)
    requires
        exists|k: int| 0 <= k < rows.len() && (#[trigger] rows[k]).country_code@ == code,
    ensures
        0 <= last < rows.len(),
        rows[last].country_code@ == code,
        forall|m: int| last < m < rows.len() ==> (#[trigger] rows[m]).country_code@ != code,
    decreases rows.len(),
{
    if rows.last().country_code@ == code {
        rows.len() - 1
    } else {
        let shorter = rows.drop_last();
        let k = choose|k: int| 0 <= k < rows.len() && (#[trigger] rows[k]).country_code@ == code;
        assert(shorter[k].country_code@ == code);
        let last = lemma_last_row_of_code(shorter, code);
        assert forall|m: int| last < m < rows.len() implies (#[trigger] rows[m]).country_code@
            != code by {
            if m < shorter.len() {
                assert(shorter[m].country_code@ != code);
            }
        }
        last
    }
}

/// Where a row of the list with one row per code comes from: the last row of its code.
pub proof fn lemma_last_rows_come_from(rows: Seq<CountryView>, k: int) -> (i: int)
    requires
        0 <= k < last_per_code(rows).len(),
    ensures
        0 <= i < rows.len(),
        rows[i] == last_per_code(rows)[k],
        forall|j: int| i < j < rows.len() ==> (#[trigger] rows[j]).code != rows[i].code,
{
    lemma_last_rows_origin(rows, rows.len(), k);
    choose|i: int|
        0 <= i < rows.len() && #[trigger] rows[i] == last_per_code(rows)[k] && is_last_of_code(
            rows,
            i,
        )
}

}
