//! The two ambient inputs the ledger needs — fresh identifiers and the
//! current time — and the ASCII-to-String conversion used when rendering.
//! Each comes through a trusted wrapper; nothing downstream depends on the
//! values beyond what is stated here.

use vstd::prelude::*;

verus! {

/// Relies on uuid::Uuid::new_v4 and Uuid's hyphenated Display rendering:
/// 36 ASCII bytes drawn from lowercase hexadecimal digits and hyphens.
/// The value depends on process randomness, so nothing relates two calls.
#[verifier::external_body]
pub(crate) fn new_id() -> (r: Vec<u8>)
    ensures
        r@.len() == 36,
        forall|i: int|
            0 <= i < r@.len() ==> (48 <= r@[i] <= 57 || 97 <= r@[i] <= 102 || r@[i] == 45),
{
    uuid::Uuid::new_v4().to_string().into_bytes()
}

/// Relies on chrono::Utc::now and DateTime::timestamp_millis: the current
/// wall-clock time in milliseconds. Nothing is promised of the value.
#[verifier::external_body]
pub(crate) fn now_millis() -> (r: i64) {
    chrono::Utc::now().timestamp_millis()
}

/// Relies on String::from_utf8: ASCII bytes are valid UTF-8 and decode to
/// the characters with the same code points.
#[verifier::external_body]
pub(crate) fn ascii_to_string(v: Vec<u8>) -> (r: String)
    requires
        forall|i: int| 0 <= i < v@.len() ==> v@[i] < 128,
    ensures
        r@ == v@.map_values(|b: u8| b as char),
{
    String::from_utf8(v).unwrap()
}

} // verus!
