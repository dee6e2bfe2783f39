//! The latest total.

use vstd::prelude::*;

use crate::models::Failure;

verus! {

/// The latest total.
#[derive(Debug, PartialEq, Eq)]
pub struct LiveTotal {
    pub timestamp: String,
    pub total: i32,
}

/// Takes the reply to the query for the latest timestamp and the sum of its counts, and answers.
/// The reply is `None` where the query failed, and holds `None` where the store is empty; the sum
/// is `None` where there is nothing to add up.
pub fn api_live_total(reply: Option<Option<(String, Option<i32>)>>) -> (answer: Result<
    LiveTotal,
    Failure,
>)
    ensures
        reply is None <==> answer is Err,
        answer matches Err(failure) ==> failure == Failure::Database,
        answer matches Ok(live) ==> match reply->0 {
            Some((timestamp, total)) => {
                &&& live.timestamp@ == timestamp@
                &&& live.total == match total {
                    Some(total) => total,
                    None => 0,
                }
            },
            None => live.timestamp@ == ""@ && live.total == 0,
        },
{
    match reply {
        Some(Some((timestamp, total))) => {
            let total: i32 = match total {
                Some(total) => total,
                None => 0,
            };
            Ok(LiveTotal { timestamp, total })
        },
        Some(None) => Ok(LiveTotal { timestamp: "".to_owned(), total: 0 }),
        None => Err(Failure::Database),
    }
}

}
