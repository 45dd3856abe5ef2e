//! Rolling dice: `roll_dice` produces a `RollResult` whose rolls all lie in
//! 1..=6 and whose total is exactly their sum.
use vstd::prelude::*;
use rand::Rng;

verus! {

/// Largest number of dice whose worst-case total (six on every die) still
/// fits in a `u32`.
pub const MAX_DICE: u32 = 715827882;

/// One roll request's outcome: how many dice were asked for, the individual
/// rolls, and their sum.
pub struct RollResult {
    pub dice: u32,
    pub rolls: Vec<u32>,
    pub total: u32,
}

/// The exact sum of a sequence of rolls.
pub open spec fn sum_of(s: Seq<u32>) -> int
    decreases s.len(),
{
    if s.len() == 0 {
        0
    } else {
        sum_of(s.drop_last()) + s.last()
    }
}

/// Every element is a die face, i.e. lies in 1..=6.
pub open spec fn all_faces(s: Seq<u32>) -> bool {
    forall|i: int| 0 <= i < s.len() ==> 1 <= #[trigger] s[i] <= 6
}

/// A well-formed roll result: as many rolls as dice requested, every roll a
/// face in 1..=6, and the total exactly the sum of the rolls.
pub open spec fn wf_roll(r: RollResult) -> bool {
    &&& r.rolls@.len() == r.dice
    &&& all_faces(r.rolls@)
    &&& r.total == sum_of(r.rolls@)
}

/// Relies on rand's `Rng::gen_range`: a draw from the non-empty range
/// `1..=6` always lies in that range.
#[verifier::external_body]
fn roll_one_die() -> (r: u32)
    ensures
        1 <= r <= 6,
{
    rand::thread_rng().gen_range(1..=6)
}

proof fn lemma_sum_push(s: Seq<u32>, x: u32)
    ensures
        sum_of(s.push(x)) == sum_of(s) + x,
{
    assert(s.push(x).drop_last() =~= s);
}

/// A sum of faces is bounded by six per roll.
proof fn lemma_sum_bound(s: Seq<u32>)
    requires
        all_faces(s),
    ensures
        0 <= sum_of(s) <= 6 * s.len(),
    decreases s.len(),
{
    if s.len() > 0 {
        assert(all_faces(s.drop_last()));
        lemma_sum_bound(s.drop_last());
        assert(1 <= s.last() <= 6);
    }
}

/// Roll `num_dice` dice. Zero dice yields an empty roll list with total 0.
pub fn roll_dice(num_dice: u32) -> (r: RollResult)
    requires
        num_dice <= MAX_DICE,
    ensures
        r.dice == num_dice,
        wf_roll(r),
{
    let mut rolls: Vec<u32> = Vec::new();
    let mut total: u32 = 0;
    let mut i: u32 = 0;
    while i < num_dice
        invariant
            i <= num_dice <= MAX_DICE,
            rolls@.len() == i,
            all_faces(rolls@),
            total == sum_of(rolls@),
        decreases num_dice - i,
    {
        let d = roll_one_die();
        proof {
            lemma_sum_push(rolls@, d);
            lemma_sum_bound(rolls@);
        }
        rolls.push(d);
        total = total + d;
        i = i + 1;
    }
    RollResult { dice: num_dice, rolls, total }
}

} // verus!
