//! Building the persisted record: partition key, timestamp sort key, and
//! the JSON payload of the roll result.
use vstd::prelude::*;

verus! {

/// The fixed logical name every roll result is persisted under; the
/// timestamp sort key is the uniqueness axis within that partition.
pub fn logical_name() -> (r: String)
    ensures
        r@ == "RollResult"@,
{
    "RollResult".to_owned()
}

/// One persisted item: partition key `name`, sort key `created_at` (an
/// RFC 3339 timestamp), and the serialized roll result as payload.
pub struct StorageRecord {
    pub name: String,
    pub created_at: String,
    pub payload: Vec<u8>,
}

/// Relies on chrono's `Utc::now().to_rfc3339()` for the current time as an
/// RFC 3339 string; the value depends on the clock, so nothing is claimed
/// of it.
#[verifier::external_body]
fn now_rfc3339() -> String {
    chrono::Utc::now().to_rfc3339()
}

/// Build the record for one roll result under the given logical name and
/// timestamp.
pub fn build_record(logical_name: &String, created_at: String, result: &crate::roll::RollResult)
    -> (rec: StorageRecord)
    ensures
        rec.name@ == logical_name@,
        rec.created_at == created_at,
        rec.payload@ == crate::codec::json_of(result.dice, result.rolls@, result.total),
{
    StorageRecord {
        name: logical_name.clone(),
        created_at,
        payload: crate::codec::encode_roll_result(result),
    }
}

/// Build the record stamped with the current time. The timestamp comes from
/// the clock, so only the key name and the payload are pinned down.
pub fn new_record(logical_name: &String, result: &crate::roll::RollResult) -> (rec: StorageRecord)
    ensures
        rec.name@ == logical_name@,
        rec.payload@ == crate::codec::json_of(result.dice, result.rolls@, result.total),
{
    let ts = now_rfc3339();
    build_record(logical_name, ts, result)
}

} // verus!
