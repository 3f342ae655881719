//! The spaced-repetition interval engine.
//!
//! Review intervals are whole minutes: the fixed tier ladder is
//! 1 hour, 12 hours, 1 day, 3 days and 1 week, after which intervals grow
//! exponentially by the ease factor. The ease factor is held in hundredths
//! (2.25 is 225), clamped to [1.30, 2.25].

use vstd::prelude::*;

verus! {

/// First fixed tier: one hour.
pub const TIER_HOUR: u64 = 60;
/// Second fixed tier: twelve hours.
pub const TIER_HALF_DAY: u64 = 720;
/// Third fixed tier: one day.
pub const TIER_DAY: u64 = 1440;
/// Fourth fixed tier: three days.
pub const TIER_THREE_DAYS: u64 = 4320;
/// Last fixed tier: one week. Beyond it growth is exponential.
pub const TIER_WEEK: u64 = 10080;

/// The ease factor is a multiplier in hundredths.
pub const EASE_SCALE: u32 = 100;
/// Ceiling of the ease factor (2.25).
pub const EASE_MAX: u32 = 225;
/// Floor of the ease factor (1.30).
pub const EASE_MIN: u32 = 130;
/// How much one incorrect answer lowers the ease factor (0.20).
pub const EASE_STEP: u32 = 20;

/// Review times cluster on half-hour boundaries.
pub const HALF_HOUR: u64 = 30;

/// Number of correct answers after which an item is mastered.
pub const MASTERY_THRESHOLD: i32 = 9;

/// The scheduling state of one item, as the interval engine reads it.
#[derive(Debug, Clone)]
pub struct SrsCard {
    pub character_id: i32,
    pub current_interval_minutes: u64,
    pub previous_interval_minutes: u64,
    pub ease_factor_centi: u32,
    pub times_correct: i32,
    pub times_incorrect: i32,
    pub has_reached_week: bool,
}

/// What one answer does to a card: the new interval and ease factor, the
/// next review time (minutes since the Unix epoch), and whether the card
/// reached the one-week milestone for the first time.
#[derive(Debug, Clone)]
pub struct SrsUpdate {
    pub new_interval_minutes: u64,
    pub new_ease_factor_centi: u32,
    pub next_review_minute: u64,
    pub reached_week_for_first_time: bool,
}

/// The interval a correct answer advances to: the next tier strictly above
/// `current`, or `current * ease / 100` once past the last fixed tier.
pub open spec fn next_interval_correct(current: int, ease: int) -> int {
    if current < TIER_HOUR as int {
        TIER_HOUR as int
    } else if current < TIER_HALF_DAY as int {
        TIER_HALF_DAY as int
    } else if current < TIER_DAY as int {
        TIER_DAY as int
    } else if current < TIER_THREE_DAYS as int {
        TIER_THREE_DAYS as int
    } else if current < TIER_WEEK as int {
        TIER_WEEK as int
    } else {
        current * ease / (EASE_SCALE as int)
    }
}

/// The interval an incorrect answer falls back to: the previous interval,
/// floored at the smallest tier.
pub open spec fn next_interval_incorrect(previous: int) -> int {
    if previous >= TIER_HOUR as int {
        previous
    } else {
        TIER_HOUR as int
    }
}

/// A correct answer clamps the ease factor to its ceiling.
pub open spec fn ease_after_correct(ease: int) -> int {
    if ease <= EASE_MAX as int {
        ease
    } else {
        EASE_MAX as int
    }
}

/// An incorrect answer lowers the ease factor by one step, floored.
pub open spec fn ease_after_incorrect(ease: int) -> int {
    if ease >= EASE_MIN as int + EASE_STEP as int {
        ease - EASE_STEP as int
    } else {
        EASE_MIN as int
    }
}

/// The ease factor after one answer.
pub open spec fn ease_after(ease: int, correct: bool) -> int {
    if correct {
        ease_after_correct(ease)
    } else {
        ease_after_incorrect(ease)
    }
}

/// The interval after one answer.
pub open spec fn new_interval_spec(card: SrsCard, correct: bool) -> int {
    if correct {
        next_interval_correct(card.current_interval_minutes as int, card.ease_factor_centi as int)
    } else {
        next_interval_incorrect(card.previous_interval_minutes as int)
    }
}

/// The ease factor after one answer to this card.
pub open spec fn new_ease_spec(card: SrsCard, correct: bool) -> int {
    ease_after(card.ease_factor_centi as int, correct)
}

/// Interval and ease factor after a correct answer.
pub fn calculate_interval_correct(card: &SrsCard) -> (r: (u64, u32))
    requires
        card.current_interval_minutes as int * card.ease_factor_centi as int <= u64::MAX as int,
    ensures
        r.0 as int == next_interval_correct(
            card.current_interval_minutes as int,
            card.ease_factor_centi as int,
        ),
        r.1 as int == ease_after_correct(card.ease_factor_centi as int),
{
    let current = card.current_interval_minutes;
    let new_interval: u64 = if current < TIER_HOUR {
        TIER_HOUR
    } else if current < TIER_HALF_DAY {
        TIER_HALF_DAY
    } else if current < TIER_DAY {
        TIER_DAY
    } else if current < TIER_THREE_DAYS {
        TIER_THREE_DAYS
    } else if current < TIER_WEEK {
        TIER_WEEK
    } else {
        current * (card.ease_factor_centi as u64) / (EASE_SCALE as u64)
    };
    let new_ease: u32 = if card.ease_factor_centi <= EASE_MAX {
        card.ease_factor_centi
    } else {
        EASE_MAX
    };
    (new_interval, new_ease)
}

/// Interval and ease factor after an incorrect answer. The interval never
/// drops below the smallest tier, even when the previous interval was 0.
pub fn calculate_interval_incorrect(card: &SrsCard) -> (r: (u64, u32))
    ensures
        r.0 as int == next_interval_incorrect(card.previous_interval_minutes as int),
        r.1 as int == ease_after_incorrect(card.ease_factor_centi as int),
        r.0 >= TIER_HOUR,
{
    let new_interval: u64 = if card.previous_interval_minutes >= TIER_HOUR {
        card.previous_interval_minutes
    } else {
        TIER_HOUR
    };
    let new_ease: u32 = if card.ease_factor_centi >= EASE_MIN + EASE_STEP {
        card.ease_factor_centi - EASE_STEP
    } else {
        EASE_MIN
    };
    (new_interval, new_ease)
}

/// One answer applied to a card: the new interval, the new ease factor, the
/// next review time `now + interval`, and the one-week milestone signal,
/// which fires exactly when a card without the milestone flag reaches an
/// interval of a week or more.
pub fn calculate_next_review(card: &SrsCard, correct: bool, now_minutes: u64) -> (update: SrsUpdate)
    requires
        correct ==> card.current_interval_minutes as int * card.ease_factor_centi as int
            <= u64::MAX as int,
        now_minutes as int + new_interval_spec(*card, correct) <= u64::MAX as int,
    ensures
        update.new_interval_minutes as int == new_interval_spec(*card, correct),
        update.new_ease_factor_centi as int == new_ease_spec(*card, correct),
        update.next_review_minute as int == now_minutes as int + new_interval_spec(*card, correct),
        update.reached_week_for_first_time == (!card.has_reached_week
            && new_interval_spec(*card, correct) >= TIER_WEEK as int),
{
    let (new_interval, new_ease) = if correct {
        calculate_interval_correct(card)
    } else {
        calculate_interval_incorrect(card)
    };
    let next_review_minute = now_minutes + new_interval;
    let reached_week_for_first_time = !card.has_reached_week && new_interval >= TIER_WEEK;
    SrsUpdate {
        new_interval_minutes: new_interval,
        new_ease_factor_centi: new_ease,
        next_review_minute,
        reached_week_for_first_time,
    }
}

/// Round a minute timestamp down to the nearest half-hour boundary.
pub fn round_down_to_half_hour(minute: u64) -> (r: u64)
    ensures
        r as int == HALF_HOUR as int * (minute as int / HALF_HOUR as int),
        r <= minute,
        (minute as int - r as int) < HALF_HOUR as int,
        r as int % HALF_HOUR as int == 0,
{
    proof {
        vstd::arithmetic::div_mod::lemma_fundamental_div_mod(minute as int, HALF_HOUR as int);
        vstd::arithmetic::div_mod::lemma_mod_bound(minute as int, HALF_HOUR as int);
    }
    minute / HALF_HOUR * HALF_HOUR
}

/// The ease factor after a whole sequence of answers, first answer first.
pub open spec fn ease_after_seq(ease: int, answers: Seq<bool>) -> int
    decreases answers.len(),
{
    if answers.len() == 0 {
        ease
    } else {
        ease_after_seq(ease_after(ease, answers[0]), answers.subrange(1, answers.len() as int))
    }
}

/// Law: across an arbitrary sequence of correct and incorrect answers, the
/// ease factor never exceeds its ceiling nor drops below its floor.
pub proof fn lemma_ease_factor_bounded(ease: int, answers: Seq<bool>)
    requires
        EASE_MIN as int <= ease <= EASE_MAX as int,
    ensures
        EASE_MIN as int <= ease_after_seq(ease, answers) <= EASE_MAX as int,
    decreases answers.len(),
{
    if answers.len() > 0 {
        lemma_ease_factor_bounded(
            ease_after(ease, answers[0]),
            answers.subrange(1, answers.len() as int),
        );
    }
}

} // verus!
