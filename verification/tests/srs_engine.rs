//! The interval engine: tier progression, failure rollback, ease clamping.
//! Intervals are whole minutes (1 hour = 60), the ease factor is in
//! hundredths (2.25 = 225).

use hanzi_srs::srs::{calculate_next_review, round_down_to_half_hour, SrsCard};

fn card(current: u64, previous: u64, ease: u32, correct: i32, incorrect: i32, week: bool) -> SrsCard {
    SrsCard {
        character_id: 1,
        current_interval_minutes: current,
        previous_interval_minutes: previous,
        ease_factor_centi: ease,
        times_correct: correct,
        times_incorrect: incorrect,
        has_reached_week: week,
    }
}

#[test]
fn test_first_correct_answer() {
    // Start at 1 hour.
    let card = card(60, 60, 225, 0, 0, false);
    let update = calculate_next_review(&card, true, 0);
    assert_eq!(update.new_interval_minutes, 720); // 1 hour -> 12 hours
    assert_eq!(update.new_ease_factor_centi, 225); // capped at 2.25
    assert!(!update.reached_week_for_first_time);
}

#[test]
fn test_reaching_one_week() {
    let card = card(4320, 1440, 225, 1, 0, false); // 3 days, previous 1 day
    let update = calculate_next_review(&card, true, 0);
    assert_eq!(update.new_interval_minutes, 10080); // 7 days
    assert!(update.reached_week_for_first_time);
}

#[test]
fn test_incorrect_answer_backs_to_previous() {
    let card = card(10080, 4320, 225, 2, 0, true); // 7 days, previous 3 days
    let update = calculate_next_review(&card, false, 0);
    assert_eq!(update.new_interval_minutes, 4320); // back to previous
    assert_eq!(update.new_ease_factor_centi, 205); // decreased by 0.2 from 2.25
    assert!(!update.reached_week_for_first_time); // already reached
}

#[test]
fn test_incorrect_answer_minimum_interval() {
    // Incorrect answers floor at 1 hour, not 1 day.
    let card = card(720, 60, 225, 1, 0, false); // 12 hours, previous 1 hour
    let update = calculate_next_review(&card, false, 0);
    assert_eq!(update.new_interval_minutes, 60); // back to 1 hour
    assert_eq!(update.new_ease_factor_centi, 205);
}

#[test]
fn test_ease_factor_floor() {
    let card = card(10080, 4320, 140, 0, 5, true); // ease 1.40
    let update = calculate_next_review(&card, false, 0);
    assert_eq!(update.new_ease_factor_centi, 130); // floor at 1.3
}

#[test]
fn test_progression_sequence() {
    let mut card = card(60, 60, 225, 0, 0, false); // 1 hour
    // 1 hour -> 12 hours
    let update = calculate_next_review(&card, true, 0);
    assert_eq!(update.new_interval_minutes, 720);

    card.previous_interval_minutes = card.current_interval_minutes;
    card.current_interval_minutes = update.new_interval_minutes;
    card.ease_factor_centi = update.new_ease_factor_centi;

    // 12 hours -> 1 day
    let update = calculate_next_review(&card, true, 0);
    assert_eq!(update.new_interval_minutes, 1440);

    card.previous_interval_minutes = card.current_interval_minutes;
    card.current_interval_minutes = update.new_interval_minutes;
    card.ease_factor_centi = update.new_ease_factor_centi;

    // 1 day -> 3 days
    let update = calculate_next_review(&card, true, 0);
    assert_eq!(update.new_interval_minutes, 4320);

    card.previous_interval_minutes = card.current_interval_minutes;
    card.current_interval_minutes = update.new_interval_minutes;
    card.ease_factor_centi = update.new_ease_factor_centi;

    // 3 days -> 7 days (reaches the week!)
    let update = calculate_next_review(&card, true, 0);
    assert_eq!(update.new_interval_minutes, 10080);
    assert!(update.reached_week_for_first_time);

    card.previous_interval_minutes = card.current_interval_minutes;
    card.current_interval_minutes = update.new_interval_minutes;
    card.has_reached_week = true;
    card.ease_factor_centi = update.new_ease_factor_centi;

    // 7 days -> 15.75 days (7 * 2.25 = 22680 minutes)
    let update = calculate_next_review(&card, true, 0);
    assert_eq!(update.new_interval_minutes, 22680);
}

#[test]
fn incorrect_from_zero_previous_floors_at_one_hour() {
    // Even a record persisted with a zero previous interval never drops
    // below the smallest tier.
    let card = card(60, 0, 225, 0, 0, false);
    let update = calculate_next_review(&card, false, 0);
    assert_eq!(update.new_interval_minutes, 60);
}

#[test]
fn next_review_uses_minutes_and_rounds_to_half_hour() {
    // now = 100 minutes; a correct answer from below the first tier lands
    // at now + 60 minutes, and rounding clamps down to the half hour.
    let card = card(0, 0, 225, 0, 0, false);
    let update = calculate_next_review(&card, true, 100);
    assert_eq!(update.next_review_minute, 160);
    assert_eq!(round_down_to_half_hour(update.next_review_minute), 150);
    assert_eq!(round_down_to_half_hour(29), 0);
    assert_eq!(round_down_to_half_hour(30), 30);
    assert_eq!(round_down_to_half_hour(59), 30);
}

#[test]
fn ease_never_leaves_bounds_across_sequences() {
    // Arbitrary answer pattern: the ease factor stays within [130, 225].
    let mut card = card(60, 60, 225, 0, 0, false);
    let answers = [
        true, false, false, false, false, false, false, true, true, false, true, false, false,
        true, false, false, false, false, true, true,
    ];
    for &correct in answers.iter() {
        let update = calculate_next_review(&card, correct, 0);
        assert!(update.new_ease_factor_centi >= 130);
        assert!(update.new_ease_factor_centi <= 225);
        card.previous_interval_minutes = card.current_interval_minutes;
        card.current_interval_minutes = update.new_interval_minutes;
        card.ease_factor_centi = update.new_ease_factor_centi;
    }
    assert_eq!(card.ease_factor_centi, 130);
}
