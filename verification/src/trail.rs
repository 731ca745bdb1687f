//! The bounded trails of the motion demo: the most recent positions of the
//! camera, oldest first.

use vstd::prelude::*;
use std::collections::VecDeque;

verus! {

/// Number of positions a trail keeps.
pub const TRAIL_LIMIT: usize = 4000;

/// The trail after recording `item`: `item` appended, and the oldest entry
/// dropped when that makes the trail longer than `limit`.
pub open spec fn pushed_trail<T>(trail: Seq<T>, item: T, limit: nat) -> Seq<T> {
    let grown = trail.push(item);
    if grown.len() > limit {
        grown.subrange(1, grown.len() as int)
    } else {
        grown
    }
}

/// Records `item` as the newest entry of `trail`, dropping the oldest entry
/// when the trail grows past `limit`.
pub fn push_trail<T>(trail: &mut VecDeque<T>, item: T, limit: usize)
    ensures
        final(trail)@ == pushed_trail(old(trail)@, item, limit as nat),
{
    trail.push_back(item);
    if trail.len() > limit {
        trail.pop_front();
    }
}

/// A trail that respects its limit keeps respecting it, ends with the newest
/// entry, and keeps the newest entries it had, in order.
pub proof fn lemma_trail_bounded<T>(trail: Seq<T>, item: T, limit: nat)
    requires
        trail.len() <= limit,
        limit > 0,
    ensures
        pushed_trail(trail, item, limit).len() <= limit,
        pushed_trail(trail, item, limit).last() == item,
        pushed_trail(trail, item, limit).drop_last() =~= trail.subrange(
            trail.len() + 1 - pushed_trail(trail, item, limit).len(),
            trail.len() as int,
        ),
{
}

} // verus!
