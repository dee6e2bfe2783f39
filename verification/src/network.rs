//! The history of the network total: what is asked for, and the answers that are kept.

use vstd::hash_map::StringHashMap;
use vstd::prelude::*;
use vstd::set_lib::*;

use crate::cache::{is_fresh, CachedResponse};
use crate::models::Failure;
use crate::text::{
    decimal, decimal_text, lemma_decimal_round_trip, parse_i64, parsed_i64,
};

verus! {

/// The numbers of points that can be asked for, rising.
pub const MAX_POINTS_BUCKETS: [i64; 6] = [500, 1000, 1500, 2000, 3000, 5000];

/// The number of points where none is asked for.
pub const DEFAULT_MAX_POINTS: i64 = 2000;

/// The bounds of the number of points that is asked for.
pub const FEWEST_POINTS: i64 = 100;

pub const MOST_POINTS: i64 = 1_000_000;

/// Whether a number is one of the numbers of points that can be asked for.
pub open spec fn is_bucket(v: int) -> bool {
    exists|i: int| 0 <= i < 6 && #[trigger] MAX_POINTS_BUCKETS@[i] == v
}

/// A number of points brought down to the largest bucket that is not above it; below all buckets
/// to the first one.
pub open spec fn quantized(v: int) -> int {
    if v < 1000 {
        500
    } else if v < 1500 {
        1000
    } else if v < 2000 {
        1500
    } else if v < 3000 {
        2000
    } else if v < 5000 {
        3000
    } else {
        5000
    }
}

/// Quantizing gives a bucket; the largest one that is not above the number, where there is one,
/// and else the first.
pub proof fn lemma_quantized(v: int)
    ensures
        is_bucket(quantized(v)),
        v >= 500 ==> quantized(v) <= v,
        v < 500 ==> quantized(v) == 500,
        forall|b: int| #[trigger] is_bucket(b) && b <= v ==> b <= quantized(v),
{
    lemma_buckets();
}

/// The buckets, one by one.
proof fn lemma_buckets()
    ensures
        forall|b: int| #[trigger]
            is_bucket(b) <==> b == 500 || b == 1000 || b == 1500 || b == 2000 || b == 3000 || b
                == 5000,
{
    assert(MAX_POINTS_BUCKETS@ =~= seq![500i64, 1000, 1500, 2000, 3000, 5000]);
    assert forall|b: int| #[trigger]
        is_bucket(b) <==> b == 500 || b == 1000 || b == 1500 || b == 2000 || b == 3000 || b
            == 5000 by {
        assert(MAX_POINTS_BUCKETS@[0] == 500);
        assert(MAX_POINTS_BUCKETS@[1] == 1000);
        assert(MAX_POINTS_BUCKETS@[2] == 1500);
        assert(MAX_POINTS_BUCKETS@[3] == 2000);
        assert(MAX_POINTS_BUCKETS@[4] == 3000);
        assert(MAX_POINTS_BUCKETS@[5] == 5000);
    }
}

/// Brings a number of points down to the largest bucket that is not above it, so that only a few
/// different numbers are ever asked for.
pub fn quantize_max_points(v: i64) -> (q: i64)
    ensures
        q == quantized(v as int),
{
    assert(MAX_POINTS_BUCKETS@ =~= seq![500i64, 1000, 1500, 2000, 3000, 5000]);
    let mut q: i64 = MAX_POINTS_BUCKETS[0];
    let mut i: usize = 0;
    while i < 6
        invariant
            i <= 6,
            MAX_POINTS_BUCKETS@ == seq![500i64, 1000, 1500, 2000, 3000, 5000],
            i == 0 ==> q == 500,
            0 < i ==> q == if v < MAX_POINTS_BUCKETS@[i - 1] {
                quantized(v as int)
            } else {
                MAX_POINTS_BUCKETS@[i - 1] as int
            },
        decreases 6 - i,
    {
        let bucket: i64 = MAX_POINTS_BUCKETS[i];
        assert(i == 0 || i == 1 || i == 2 || i == 3 || i == 4 || i == 5);
        if v >= bucket {
            q = bucket;
        }
        i = i + 1;
    }
    q
}

/// The range of the history that a request asks for: seven days, all of it, or else thirty days.
pub open spec fn range_of(asked: Option<Seq<char>>) -> Seq<char> {
    if asked == Some("7"@) {
        "7"@
    } else if asked == Some("all"@) {
        "all"@
    } else {
        "30"@
    }
}

/// The snapshots of a range, of which there are 96 a day; `None` for all of them.
pub open spec fn limit_of(range: Seq<char>) -> Option<i64> {
    if range == "7"@ {
        Some(672)
    } else if range == "all"@ {
        None
    } else {
        Some(2880)
    }
}

/// A number within bounds.
pub open spec fn clamped(v: int, low: int, high: int) -> int {
    if v < low {
        low
    } else if v > high {
        high
    } else {
        v
    }
}

/// The number of points that a request asks for: a bucket.
pub open spec fn points_of(asked: Option<Seq<char>>) -> int {
    let number = match asked {
        Some(text) => match parsed_i64(text) {
            Some(v) => v,
            None => DEFAULT_MAX_POINTS,
        },
        None => DEFAULT_MAX_POINTS,
    };
    quantized(clamped(number as int, FEWEST_POINTS as int, MOST_POINTS as int))
}

/// The key under which an answer is kept.
pub open spec fn cache_key(range: Seq<char>, max_points: int) -> Seq<char> {
    range + "|"@ + decimal_text(max_points as nat)
}

/// What is asked of the store for the history of the network total.
#[derive(Debug, PartialEq, Eq)]
pub struct NetworkQuery {
    pub limit: Option<i64>,
    pub max_points: i64,
    pub cache_key: String,
}

/// Whether a range is one of the three that can be asked for.
pub open spec fn is_range(range: Seq<char>) -> bool {
    range == "7"@ || range == "30"@ || range == "all"@
}

impl NetworkQuery {
    /// Whether the query asks for a range and a bucket, and has their key.
    pub open spec fn asks(self, range: Seq<char>) -> bool {
        &&& is_range(range)
        &&& self.limit == limit_of(range)
        &&& is_bucket(self.max_points as int)
        &&& self.cache_key@ == cache_key(range, self.max_points as int)
    }

    /// Whether the query is one that a request can ask for.
    pub open spec fn well_formed(self) -> bool {
        exists|range: Seq<char>| #[trigger] self.asks(range)
    }
}

/// Whether two texts are the same.
fn same_text(a: &str, b: &str) -> (same: bool)
    ensures
        same == (a@ == b@),
{
    a.to_owned() == b.to_owned()
}

/// Takes the parameters of a request, `None` where one is not given. Whatever they are, what is
/// asked for is one of three ranges in one of six numbers of points.
pub fn api_network_total(range: Option<&str>, max_points: Option<&str>) -> (query: NetworkQuery)
    ensures
        query.limit == limit_of(range_of(opt_view(range))),
        query.max_points == points_of(opt_view(max_points)),
        query.cache_key@ == cache_key(
            range_of(opt_view(range)),
            points_of(opt_view(max_points)),
        ),
        query.well_formed(),
{
    proof {
        lemma_range_texts();
    }
    let raw: &str = match range {
        Some(text) => text,
        None => "30",
    };
    let (key, limit): (&str, Option<i64>) = if same_text(raw, "7") {
        ("7", Some(672))
    } else if same_text(raw, "all") {
        ("all", None)
    } else {
        ("30", Some(2880))
    };
    let number: i64 = match max_points {
        Some(text) => match parse_i64(text) {
            Some(v) => v,
            None => DEFAULT_MAX_POINTS,
        },
        None => DEFAULT_MAX_POINTS,
    };
    let within: i64 = if number < FEWEST_POINTS {
        FEWEST_POINTS
    } else if number > MOST_POINTS {
        MOST_POINTS
    } else {
        number
    };
    let max_points: i64 = quantize_max_points(within);
    proof {
        lemma_quantized(within as int);
    }
    let cache_key: String = key.to_owned().concat("|").concat(decimal(max_points as u64).as_str());
    let query: NetworkQuery = NetworkQuery { limit, max_points, cache_key };
    assert(query.asks(key@));
    query
}

/// The text of a parameter.
pub open spec fn opt_view(text: Option<&str>) -> Option<Seq<char>> {
    match text {
        Some(t) => Some(t@),
        None => None,
    }
}

/// The texts of the ranges, character by character.
proof fn lemma_range_texts()
    ensures
        "7"@ == seq!['7'],
        "30"@ == seq!['3', '0'],
        "all"@ == seq!['a', 'l', 'l'],
        "|"@ == seq!['|'],
        "7"@ != "30"@,
        "7"@ != "all"@,
        "30"@ != "all"@,
{
    reveal_strlit("7");
    reveal_strlit("30");
    reveal_strlit("all");
    reveal_strlit("|");
    assert("7"@ =~= seq!['7']);
    assert("30"@ =~= seq!['3', '0']);
    assert("all"@ =~= seq!['a', 'l', 'l']);
    assert("|"@ =~= seq!['|']);
    assert("7"@.len() == 1 && "30"@.len() == 2 && "all"@.len() == 3);
}

/// The key tells what was asked for: two queries with the same key are the same query, so that an
/// answer kept under a key is an answer to every query with that key.
pub proof fn lemma_key_tells_query(a: NetworkQuery, b: NetworkQuery)
    requires
        a.well_formed(),
        b.well_formed(),
        a.cache_key@ == b.cache_key@,
    ensures
        a.limit == b.limit,
        a.max_points == b.max_points,
{
    lemma_range_texts();
    lemma_buckets();
    let r = choose|range: Seq<char>| #[trigger] a.asks(range);
    let q = choose|range: Seq<char>| #[trigger] b.asks(range);
    let key = a.cache_key@;
    let left = decimal_text(a.max_points as nat);
    let right = decimal_text(b.max_points as nat);
    assert(key == r + "|"@ + left);
    assert(key == q + "|"@ + right);
    // The bar stands right behind the range, and none of the ranges holds one.
    assert(key[r.len() as int] == '|');
    assert(key[q.len() as int] == '|');
    assert(forall|i: int| 0 <= i < r.len() ==> key[i] == r[i]);
    assert(forall|i: int| 0 <= i < q.len() ==> key[i] == q[i]);
    assert(r.len() == q.len()) by {
        if r.len() < q.len() {
            assert(key[r.len() as int] == q[r.len() as int]);
        }
        if q.len() < r.len() {
            assert(key[q.len() as int] == r[q.len() as int]);
        }
    }
    assert(left =~= key.skip(r.len() as int + 1));
    assert(right =~= key.skip(q.len() as int + 1));
    lemma_decimal_round_trip(a.max_points as nat);
    lemma_decimal_round_trip(b.max_points as nat);
}

/// Whether a text is a key under which an answer can be kept.
pub open spec fn is_cache_key(key: Seq<char>) -> bool {
    exists|range: Seq<char>, max_points: int|
        is_range(range) && is_bucket(max_points) && key == #[trigger] cache_key(range, max_points)
}

/// The keys of one range.
pub open spec fn keys_of_range(range: Seq<char>) -> Seq<Seq<char>> {
    seq![
        cache_key(range, 500),
        cache_key(range, 1000),
        cache_key(range, 1500),
        cache_key(range, 2000),
        cache_key(range, 3000),
        cache_key(range, 5000),
    ]
}

/// How many answers can be kept at most: one for each of three ranges and six numbers of points.
pub const MOST_KEYS: usize = 18;

/// Requests cannot make the cache grow without bound: whatever keys are used, there are no more
/// than eighteen.
pub proof fn lemma_few_cache_keys(keys: Set<Seq<char>>)
    requires
        forall|key: Seq<char>| #[trigger] keys.contains(key) ==> is_cache_key(key),
    ensures
        keys.finite(),
        keys.len() <= MOST_KEYS,
{
    lemma_buckets();
    let all = keys_of_range("7"@) + keys_of_range("30"@) + keys_of_range("all"@);
    assert(all.len() == 18);
    assert forall|key: Seq<char>| #[trigger] keys.contains(key) implies all.to_set().contains(
        key,
    ) by {
        let (range, max_points) = choose|range: Seq<char>, max_points: int|
            is_range(range) && is_bucket(max_points) && key == #[trigger] cache_key(
                range,
                max_points,
            );
        assert(is_bucket(max_points));
        let offset = if range == "7"@ {
            0
        } else if range == "30"@ {
            6
        } else {
            12int
        };
        let i = if max_points == 500 {
            0
        } else if max_points == 1000 {
            1
        } else if max_points == 1500 {
            2
        } else if max_points == 2000 {
            3
        } else if max_points == 3000 {
            4
        } else {
            5int
        };
        assert(keys_of_range(range)[i] == key);
        assert(all[offset + i] == key);
    }
    all.lemma_cardinality_of_set();
    assert(keys.subset_of(all.to_set()));
    lemma_len_subset(keys, all.to_set());
}

/// The answers that are kept, by key.
#[verifier::reject_recursive_types(T)]
pub struct NetworkCache<T> {
    entries: StringHashMap<CachedResponse<T>>,
}

impl<T> View for NetworkCache<T> {
    type V = Map<Seq<char>, CachedResponse<T>>;

    closed spec fn view(&self) -> Map<Seq<char>, CachedResponse<T>> {
        self.entries@
    }
}

/// What is given for a query from kept answers: one that is kept under the query's key and still
/// fresh.
pub open spec fn kept_answer<T>(
    entries: Map<Seq<char>, CachedResponse<T>>,
    key: Seq<char>,
    now: u64,
) -> Option<T> {
    if entries.contains_key(key) && is_fresh(entries[key].at, now) {
        Some(entries[key].data)
    } else {
        None
    }
}

impl<T> NetworkCache<T> {
    /// Whether answers are kept only under keys of queries that a request can ask for.
    pub open spec fn well_formed(self) -> bool {
        forall|key: Seq<char>| #[trigger] self@.contains_key(key) ==> is_cache_key(key)
    }

    /// A cache without answers.
    pub fn new() -> (cache: Self)
        ensures
            cache.well_formed(),
            cache@ == Map::<Seq<char>, CachedResponse<T>>::empty(),
    {
        NetworkCache { entries: StringHashMap::new() }
    }

    /// How many answers are kept, fresh or not.
    pub fn len(&self) -> (n: usize)
        requires
            self.well_formed(),
        ensures
            n == self@.len(),
            n <= MOST_KEYS,
    {
        proof {
            assert forall|key: Seq<char>| #[trigger] self@.dom().contains(key) implies is_cache_key(
                key,
            ) by {
                assert(self@.contains_key(key));
            }
            lemma_few_cache_keys(self@.dom());
        }
        self.entries.len()
    }

    /// The answer to a query, where one is kept and fresh.
    pub fn lookup(&self, query: &NetworkQuery, now: u64) -> (answer: Option<&T>)
        ensures
            answer is Some <==> kept_answer(self@, query.cache_key@, now) is Some,
            answer matches Some(data) ==> kept_answer(self@, query.cache_key@, now) == Some(*data),
    {
        match self.entries.get(query.cache_key.as_str()) {
            Some(entry) => if entry.fresh(now) {
                Some(&entry.data)
            } else {
                None
            },
            None => None,
        }
    }

    /// Takes the reply of the store to a query, `None` where it failed. The answer is kept in
    /// place of an earlier one to the same query; a failure leaves the cache as it was.
    pub fn finish(&mut self, query: NetworkQuery, now: u64, reply: Option<T>) -> (done: Result<
        (),
        Failure,
    >)
        requires
            old(self).well_formed(),
            query.well_formed(),
        ensures
            final(self).well_formed(),
            reply is Some <==> done is Ok,
            done matches Err(failure) ==> failure == Failure::Database,
            final(self)@ == match reply {
                Some(data) => old(self)@.insert(
                    query.cache_key@,
                    CachedResponse { data, at: now },
                ),
                None => old(self)@,
            },
    {
        match reply {
            Some(data) => {
                proof {
                    let range = choose|range: Seq<char>| #[trigger] query.asks(range);
                    assert(query.cache_key@ == cache_key(range, query.max_points as int));
                    assert(is_cache_key(query.cache_key@));
                }
                let ghost stored = query.cache_key@;
                self.entries.insert(query.cache_key, CachedResponse { data, at: now });
                assert forall|key: Seq<char>| #[trigger] self@.contains_key(
                    key,
                ) implies is_cache_key(key) by {
                    if key != stored {
                        assert(old(self)@.contains_key(key));
                    }
                }
                Ok(())
            },
            None => Err(Failure::Database),
        }
    }
}

/// What was kept is given until thirty seconds have passed, and then no more; what is kept for
/// other queries does not change.
pub proof fn lemma_kept_answers<T>(
    entries: Map<Seq<char>, CachedResponse<T>>,
    key: Seq<char>,
    data: T,
    at: u64,
    other: Seq<char>,
    now: u64,
)
    requires
        at <= now,
    ensures
        now - at < 30_000_000_000 ==> kept_answer(
            entries.insert(key, CachedResponse { data, at }),
            key,
            now,
        ) == Some(data),
        now - at >= 30_000_000_000 ==> kept_answer(
            entries.insert(key, CachedResponse { data, at }),
            key,
            now,
        ) is None,
        other != key ==> kept_answer(
            entries.insert(key, CachedResponse { data, at }),
            other,
            now,
        ) == kept_answer(entries, other, now),
{
}

/// The number of points asked of the store: 2000 where none is given or what is given is no number,
/// and else the largest of 500, 1000, 1500, 2000, 3000 and 5000 that is not above the number, or
/// 500 where all are.
pub proof fn lemma_points(asked: Option<Seq<char>>)
    ensures
        asked is None ==> points_of(asked) == 2000,
        asked matches Some(text) ==> (parsed_i64(text) is None ==> points_of(asked) == 2000),
        asked matches Some(text) ==> (parsed_i64(text) matches Some(v) ==> {
            &&& v < 1000 ==> points_of(asked) == 500
            &&& 1000 <= v < 1500 ==> points_of(asked) == 1000
            &&& 1500 <= v < 2000 ==> points_of(asked) == 1500
            &&& 2000 <= v < 3000 ==> points_of(asked) == 2000
            &&& 3000 <= v < 5000 ==> points_of(asked) == 3000
            &&& v >= 5000 ==> points_of(asked) == 5000
        }),
{
}

/// A larger number never gets fewer points, and a number of points that can be asked for is kept.
pub proof fn lemma_quantized_monotone(v: int, w: int)
    requires
        v <= w,
    ensures
        quantized(v) <= quantized(w),
        quantized(quantized(v)) == quantized(v),
{
}

/// The snapshots asked of the store: those of seven days for `7`, no limit for `all`, and those of
/// thirty days for anything else, at ninety-six a day.
pub proof fn lemma_range(asked: Option<Seq<char>>)
    ensures
        asked == Some("7"@) ==> limit_of(range_of(asked)) == Some((7 * 96) as i64)
            && range_of(asked) == "7"@,
        asked == Some("all"@) ==> limit_of(range_of(asked)) is None && range_of(asked) == "all"@,
        asked != Some("7"@) && asked != Some("all"@) ==> limit_of(range_of(asked)) == Some(
            (30 * 96) as i64,
        ) && range_of(asked) == "30"@,
{
    lemma_range_texts();
}

/// An answer is given for a key just where one is kept under it that is not thirty seconds old, and
/// it is the one that is kept.
pub proof fn lemma_kept_answer<T>(
    entries: Map<Seq<char>, CachedResponse<T>>,
    key: Seq<char>,
    now: u64,
)
    ensures
        kept_answer(entries, key, now) is Some <==> entries.contains_key(key) && now
            - entries[key].at < 30_000_000_000,
        kept_answer(entries, key, now) matches Some(data) ==> data == entries[key].data,
{
}

/// A key is the range, a bar, and the number of points, which reads back as it was.
pub proof fn lemma_cache_key(range: Seq<char>, max_points: int)
    requires
        0 <= max_points <= i64::MAX,
    ensures
        cache_key(range, max_points).take(range.len() as int) == range,
        cache_key(range, max_points)[range.len() as int] == '|',
        parsed_i64(cache_key(range, max_points).skip(range.len() as int + 1)) == Some(
            max_points as i64,
        ),
{
    lemma_range_texts();
    lemma_decimal_round_trip(max_points as nat);
    let key = cache_key(range, max_points);
    assert(key.take(range.len() as int) =~= range);
    assert(key.skip(range.len() as int + 1) =~= decimal_text(max_points as nat));
}

}
