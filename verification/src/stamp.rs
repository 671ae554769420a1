//! The id and the time that a fill is marked with.
use crate::types::Timestamp;
use vstd::prelude::*;

verus! {

/// A character of a lower-case hexadecimal number.
pub open spec fn is_hex(c: char) -> bool {
    '0' <= c <= '9' || 'a' <= c <= 'f'
}

/// The text of a random UUID: 32 hexadecimal digits in groups of 8, 4, 4, 4 and 12, the third
/// group starting with the version and the fourth with the variant.
pub open spec fn is_random_uuid(s: Seq<char>) -> bool {
    &&& s.len() == 36
    &&& forall|i: int|
        0 <= i < 36 ==> if i == 8 || i == 13 || i == 18 || i == 23 {
            #[trigger] s[i] == '-'
        } else {
            is_hex(s[i])
        }
    &&& s[14] == '4'
    &&& s[19] == '8' || s[19] == '9' || s[19] == 'a' || s[19] == 'b'
}

/// What tells one fill from another.
#[derive(Clone, Debug)]
pub struct FillStamp {
    pub id: String,
    pub timestamp: Timestamp,
}

/// The id is the text of a random UUID, and the time a time of the clock.
pub open spec fn is_fresh(id: Seq<char>, timestamp: Timestamp) -> bool {
    is_random_uuid(id) && timestamp.nanos < 1_000_000_000
}

/// `uuid::Uuid::new_v4`, written out by its `Display`. The id is random; whatever it is, it is
/// the text of a random UUID. That no id comes twice is not promised. Panics if the system has no
/// source of randomness.
#[verifier::external_body]
pub(crate) fn new_fill_id() -> (r: String)
    ensures
        is_random_uuid(r@),
{
    uuid::Uuid::new_v4().to_string()
}

/// `chrono::Utc::now`: the time on the system clock, in seconds and nanoseconds. Which time it
/// is, or that it is later than one read before, is not promised. Panics if the clock stands before
/// 1970.
#[verifier::external_body]
pub(crate) fn current_time() -> (r: Timestamp)
    ensures
        r.nanos < 1_000_000_000,
{
    let now = chrono::Utc::now();
    Timestamp { secs: now.timestamp(), nanos: now.timestamp_subsec_nanos() }
}

/// A fresh id and the current time, once for each of `count` fills.
pub(crate) fn new_stamps(count: usize) -> (r: Vec<FillStamp>)
    ensures
        r@.len() == count,
        forall|i: int| 0 <= i < count ==> is_fresh(#[trigger] r@[i].id@, r@[i].timestamp),
{
    let mut r: Vec<FillStamp> = Vec::new();
    while r.len() < count
        invariant
            r@.len() <= count,
            forall|i: int| 0 <= i < r@.len() ==> is_fresh(#[trigger] r@[i].id@, r@[i].timestamp),
        decreases count - r@.len(),
    {
        let id = new_fill_id();
        let timestamp = current_time();
        r.push(FillStamp { id, timestamp });
    }
    r
}

} // verus!
