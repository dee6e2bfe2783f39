//! The rows that the snapshot store hands out, and why a request can fail.

use vstd::prelude::*;

verus! {

/// Why a request is not answered.
#[derive(Debug, PartialEq, Eq, Clone, Copy)]
pub enum Failure {
    /// A query that the answer needs has failed; the request is answered with an internal server
    /// error.
    Database,
    /// A timestamp of the store cannot be moved as the request asks, because the result lies
    /// outside the dates that can be shown; there is no answer.
    ClockRange,
}

/// The number of providers in one country, in one snapshot.
#[derive(Debug, PartialEq, Eq)]
pub struct CountryCount {
    pub country_code: String,
    pub country_name: String,
    pub provider_count: i32,
}

/// What a [`CountryCount`] says.
pub struct CountryView {
    pub code: Seq<char>,
    pub name: Seq<char>,
    pub count: i32,
}

impl View for CountryCount {
    type V = CountryView;

    open spec fn view(&self) -> CountryView {
        CountryView {
            code: self.country_code@,
            name: self.country_name@,
            count: self.provider_count,
        }
    }
}

impl Clone for CountryCount {
    fn clone(&self) -> (copy: Self)
        ensures
            copy == *self,
    {
        CountryCount {
            country_code: self.country_code.clone(),
            country_name: self.country_name.clone(),
            provider_count: self.provider_count,
        }
    }
}

/// The number of providers of a country at one time.
#[derive(Debug, PartialEq, Eq)]
pub struct HistoryPoint {
    pub timestamp: String,
    pub provider_count: i32,
}

/// What a [`HistoryPoint`] says.
pub struct HistoryView {
    pub timestamp: Seq<char>,
    pub count: i32,
}

impl View for HistoryPoint {
    type V = HistoryView;

    open spec fn view(&self) -> HistoryView {
        HistoryView { timestamp: self.timestamp@, count: self.provider_count }
    }
}

/// Whether an integer is an `i32`.
pub open spec fn fits_i32(x: int) -> bool {
    i32::MIN <= x <= i32::MAX
}

/// A row says all that it holds: its view has its code, name and count, and rows that say the same
/// are alike in all three.
pub proof fn lemma_country_says_all(a: CountryCount, b: CountryCount)
    ensures
        a@.code == a.country_code@,
        a@.name == a.country_name@,
        a@.count == a.provider_count,
        a@ == b@ <==> a.country_code@ == b.country_code@ && a.country_name@ == b.country_name@
            && a.provider_count == b.provider_count,
{
}

/// A point says all that it holds: its view has its time and count, and points that say the same
/// are alike in both.
pub proof fn lemma_point_says_all(a: HistoryPoint, b: HistoryPoint)
    ensures
        a@.timestamp == a.timestamp@,
        a@.count == a.provider_count,
        a@ == b@ <==> a.timestamp@ == b.timestamp@ && a.provider_count == b.provider_count,
{
}

/// The numbers that fit are those from the least `i32` to the largest one.
pub proof fn lemma_fits_i32(x: int)
    ensures
        fits_i32(x) <==> -0x8000_0000 <= x <= 0x7fff_ffff,
{
}

}
