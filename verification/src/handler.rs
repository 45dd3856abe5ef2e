//! The roll request's synchronous core: roll the dice and produce the JSON
//! response body. The body depends only on the roll result, never on
//! whether persistence succeeded.
use vstd::prelude::*;

verus! {

/// What one roll request answers with: the fresh roll result and the JSON
/// body returned to the caller.
pub struct RollResponse {
    pub result: crate::roll::RollResult,
    pub body: Vec<u8>,
}

/// Handle one roll request: roll `num_dice` dice and encode the outcome as
/// the response body.
pub fn handle_roll(num_dice: u32) -> (r: RollResponse)
    requires
        num_dice <= crate::roll::MAX_DICE,
    ensures
        r.result.dice == num_dice,
        crate::roll::wf_roll(r.result),
        r.body@ == crate::codec::json_of(r.result.dice, r.result.rolls@, r.result.total),
{
    let result = crate::roll::roll_dice(num_dice);
    let body = crate::codec::encode_roll_result(&result);
    RollResponse { result, body }
}

} // verus!
