//! Things that are due at intervals, and how long to wait for them.
//!
//! Times are nanoseconds since some fixed instant.

use vstd::prelude::*;

verus! {

/// How long `now` is past `then`; zero where it is not.
pub open spec fn elapsed(then: u128, now: u128) -> int {
    if now >= then {
        now - then
    } else {
        0
    }
}

/// How long until something is due that was last done at `last`; zero if it is due.
pub open spec fn time_left(last: u128, interval: u128, now: u128) -> int {
    if elapsed(last, now) >= interval {
        0
    } else {
        interval - elapsed(last, now)
    }
}

/// The shorter of a timer that may be unset and some other time.
pub open spec fn shorter(timer: Option<u128>, left: int) -> int {
    match timer {
        Some(t) => if t < left {
            t as int
        } else {
            left
        },
        None => left,
    }
}

/// How long `now` is past `then`; zero where it is not.
pub fn time_since(then: u128, now: u128) -> (r: u128)
    ensures
        r == elapsed(then, now),
{
    if now >= then {
        now - then
    } else {
        0
    }
}

/// How long until something is due that was last done at `last`.
pub fn time_until_due(last: u128, interval: u128, now: u128) -> (r: u128)
    ensures
        r == time_left(last, interval, now),
{
    let gone: u128 = time_since(last, now);
    if gone >= interval {
        0
    } else {
        interval - gone
    }
}

/// The shorter of a timer that may be unset and some other time.
pub fn shorter_wait(timer: Option<u128>, left: u128) -> (r: u128)
    ensures
        r == shorter(timer, left as int),
{
    match timer {
        Some(t) => {
            if t < left {
                t
            } else {
                left
            }
        },
        None => left,
    }
}

/// A wait misses nothing: when it is over the thing is due, unless a timer ended it.
pub proof fn lemma_wait_reaches_due(timer: Option<u128>, last: u128, interval: u128, now: u128)
    requires
        last <= now,
        now + interval <= u128::MAX,
    ensures
        ({
            let wait = shorter(timer, time_left(last, interval, now));
            ||| time_left(last, interval, (now + wait) as u128) == 0
            ||| timer matches Some(t) && t == wait
        }),
{
}

/// Something that was last done at `last` is due exactly from `interval` later on, and
/// before that the time left is what is missing. A wait is never longer than the timer
/// or the time left, and is one of the two.
pub proof fn lemma_due_when(timer: Option<u128>, last: u128, interval: u128, now: u128)
    ensures
        time_left(last, interval, now) == 0 <==> interval == 0 || now >= last + interval,
        last <= now < last + interval ==> now + time_left(last, interval, now) == last + interval,
        now < last ==> time_left(last, interval, now) == interval,
        now >= last ==> last + elapsed(last, now) == now,
        now <= last ==> elapsed(last, now) == 0,
        forall|left: int|
            {
                let wait = #[trigger] shorter(timer, left);
                &&& wait <= left
                &&& timer matches Some(t) ==> wait <= t
                &&& wait == left || timer == Some(wait as u128)
            },
{
}

} // verus!
