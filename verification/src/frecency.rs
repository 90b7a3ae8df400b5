//! How a directory's past use counts for less as time passes.
//!
//! Scores are fixed-point: a factor is a number of hundredths, and a score that
//! such a factor was applied to has two more decimal places than it had before.

use vstd::prelude::*;

verus! {

/// A total above this many points makes scores age.
pub const AGING_THRESHOLD: u64 = 1000;

/// What aging leaves of a score, in tenths.
pub const AGING_TENTHS: u64 = 9;

/// An aged score below this many points is dropped.
pub const PRUNE_THRESHOLD: u64 = 1;

pub const HOUR: u64 = 3600;

pub const DAY: u64 = 86400;

pub const WEEK: u64 = 604800;

/// What an access that long ago still counts for, in hundredths.
pub open spec fn decay(elapsed: int) -> int {
    if elapsed < 3600 {
        100
    } else if elapsed < 86400 {
        70
    } else if elapsed < 604800 {
        50
    } else {
        25
    }
}

/// The seconds between an access and now; none where the access lies in the future.
pub open spec fn elapsed(last_access: u64, now: u64) -> int {
    if now >= last_access {
        now - last_access
    } else {
        0
    }
}

/// What an access `elapsed_secs` ago still counts for, in hundredths.
pub fn decay_factor(elapsed_secs: u64) -> (r: u64)
    ensures
        r == decay(elapsed_secs as int),
{
    if elapsed_secs < HOUR {
        100
    } else if elapsed_secs < DAY {
        70
    } else if elapsed_secs < WEEK {
        50
    } else {
        25
    }
}

/// The factor for an access at `last_access`, seen at `now`, in hundredths.
pub fn decay_since(last_access: u64, now: u64) -> (r: u64)
    ensures
        r == decay(elapsed(last_access, now)),
{
    let gone: u64 = if now >= last_access {
        now - last_access
    } else {
        0
    };
    decay_factor(gone)
}

/// A raw score after decay. The result has two more decimal places than `raw_score`.
pub fn effective_score(raw_score: u64, last_access: u64, now: u64) -> (r: u128)
    ensures
        r == raw_score * decay(elapsed(last_access, now)),
{
    let factor: u64 = decay_since(last_access, now);
    assert(raw_score * factor <= 0xffff_ffff_ffff_ffff * 100) by (nonlinear_arith)
        requires
            raw_score <= 0xffff_ffff_ffff_ffff,
            factor <= 100,
    ;
    raw_score as u128 * factor as u128
}

/// Whether a total of `total_hundredths` hundredths of a point makes scores age.
pub fn should_age(total_hundredths: u64) -> (r: bool)
    ensures
        r == (total_hundredths > AGING_THRESHOLD * 100),
{
    total_hundredths > AGING_THRESHOLD * 100
}

/// A score of `hundredths` hundredths of a point after aging, in thousandths; none
/// where less than a point is left.
pub fn age_score(hundredths: u64) -> (r: Option<u128>)
    ensures
        r == if hundredths * AGING_TENTHS < PRUNE_THRESHOLD * 1000 {
            None::<u128>
        } else {
            Some((hundredths * AGING_TENTHS) as u128)
        },
{
    let aged: u128 = hundredths as u128 * AGING_TENTHS as u128;
    if aged < PRUNE_THRESHOLD as u128 * 1000 {
        None
    } else {
        Some(aged)
    }
}

/// Law: the longer ago an access is, the less it counts.
pub proof fn law_decay_never_rises(earlier: int, later: int)
    requires
        earlier <= later,
    ensures
        decay(later) <= decay(earlier),
        25 <= decay(later) <= 100,
{
}

/// Law: aging never raises a score, and what it keeps is worth at least a point.
pub proof fn law_aging_shrinks(hundredths: u64)
    ensures
        hundredths * AGING_TENTHS <= hundredths * 10,
        hundredths * AGING_TENTHS >= PRUNE_THRESHOLD * 1000 <==> hundredths >= 112,
{
}

/// Law: what was used within the hour counts more than what was used within the day, that
/// more than what was used within the week, and that more than all else; but all past use
/// counts for something, and none for more than it is.
pub proof fn law_decay_steps(hour: int, day: int, week: int, older: int)
    requires
        hour < 3600 <= day < 86400 <= week < 604800 <= older,
    ensures
        0 < decay(older) < decay(week) < decay(day) < decay(hour) == 100,
{
}

} // verus!
