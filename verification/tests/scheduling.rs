//! The unlock scheduler, the progress store, scoring, and the card
//! selections, driven on an in-memory catalog and store.

use hanzi_srs::catalog::{Catalog, CatalogItem, Character};
use hanzi_srs::cards::{get_due_cards, get_self_study_cards, get_browse_items_introduction_order,
    get_characters_for_initial_study, PracticeLog};
use hanzi_srs::progress::{new_record, ProgressStore, StoreError};
use hanzi_srs::scheduler::{check_and_unlock_characters, get_eligible_words,
    get_hours_until_next_unlock, get_next_introduction_batch_mixed, get_unlock_status,
    get_unlocked_characters_batch, initialize_new_user_characters,
    introduce_multiple_characters, mark_all_ready_characters_introduced, unlock_next_character};
use hanzi_srs::score::calculate_introduction_score;
use hanzi_srs::sessions::{calculate_study_streak, get_dashboard_stats, get_database_debug_info,
    get_review_calendar, SessionLog};
use hanzi_srs::srs::MASTERY_THRESHOLD;
use hanzi_srs::timefmt::{format_datetime_minutes, parse_datetime_minutes};

fn item(id: i32, rank: i32, is_word: bool, comps: Vec<i32>, text: &str) -> CatalogItem {
    CatalogItem {
        character: Character {
            id,
            character: text.to_string(),
            simplified: text.to_string(),
            traditional: None,
            mandarin_pinyin: String::new(),
            definition: String::new(),
            frequency_rank: rank,
            is_word,
        },
        component_ids: comps,
    }
}

fn small_catalog() -> Catalog {
    Catalog {
        items: vec![
            item(1, 1, false, vec![], "一"),
            item(2, 2, false, vec![], "人"),
            item(3, 3, false, vec![], "中"),
            item(10, 5, true, vec![1, 2], "一人"),
            item(11, 4, true, vec![3, 99], "中外"),
        ],
    }
}

fn empty_store() -> ProgressStore {
    ProgressStore {
        records: Vec::new(),
        initial_unlock_completed: false,
        last_unlock_date: String::new(),
        fail_next_write: false,
    }
}

#[test]
fn initialize_unlocks_lowest_ranked_characters_once() {
    let cat = small_catalog();
    let mut store = empty_store();
    let now = parse_datetime_minutes("2024-01-10 00:00:00").unwrap();
    let n = initialize_new_user_characters(&cat, &mut store, now).unwrap();
    assert_eq!(n, 3); // the three single characters; words are not unlocked here
    assert!(store.initial_unlock_completed);
    assert_eq!(store.records.len(), 3);
    assert_eq!(store.records[0].character_id, 1); // lowest rank first
    assert!(!store.records[0].introduced);
    assert_eq!(store.records[0].current_interval_minutes, 60);
    // Idempotent: a second call changes nothing.
    let again = initialize_new_user_characters(&cat, &mut store, now).unwrap();
    assert_eq!(again, 0);
    assert_eq!(store.records.len(), 3);
}

#[test]
fn first_checkin_initializes_without_starting_cooldown() {
    let cat = small_catalog();
    let mut store = empty_store();
    let now = parse_datetime_minutes("2024-01-10 00:00:00").unwrap();
    let (n, released) = check_and_unlock_characters(&cat, &mut store, now).unwrap();
    assert_eq!(n, 3);
    assert!(!released);
    assert_eq!(store.last_unlock_date, ""); // no cooldown stamp on first run
}

#[test]
fn checkin_waits_for_queue_to_drain() {
    let cat = small_catalog();
    let mut store = empty_store();
    let now = parse_datetime_minutes("2024-01-10 00:00:00").unwrap();
    check_and_unlock_characters(&cat, &mut store, now).unwrap();
    // Ready queue is non-empty: further check-ins are no-ops.
    let before = store.records.len();
    let (n, released) = check_and_unlock_characters(&cat, &mut store, now + 10000).unwrap();
    assert_eq!((n, released), (0, false));
    assert_eq!(store.records.len(), before);
}

#[test]
fn two_checkins_inside_cooldown_insert_nothing() {
    let cat = small_catalog();
    let t0 = parse_datetime_minutes("2024-01-10 00:00:00").unwrap();
    let mut store = ProgressStore {
        records: vec![new_record(1, t0, true), new_record(2, t0, true), new_record(3, t0, true)],
        initial_unlock_completed: true,
        last_unlock_date: format_datetime_minutes(t0),
        fail_next_write: false,
    };
    // Queue empty, cooldown running: one hour later, then a day later.
    let (n1, r1) = check_and_unlock_characters(&cat, &mut store, t0 + 60).unwrap();
    let (n2, r2) = check_and_unlock_characters(&cat, &mut store, t0 + 1440).unwrap();
    assert_eq!((n1, r1), (0, false));
    assert_eq!((n2, r2), (0, false));
    assert_eq!(store.records.len(), 3);
    assert_eq!(store.last_unlock_date, format_datetime_minutes(t0));
}

#[test]
fn elapsed_cooldown_releases_scored_batch_and_stamps_timer() {
    let cat = small_catalog();
    let t0 = parse_datetime_minutes("2024-01-10 00:00:00").unwrap();
    let mut store = ProgressStore {
        records: vec![new_record(1, t0, true), new_record(2, t0, true)],
        initial_unlock_completed: true,
        last_unlock_date: format_datetime_minutes(t0),
        fail_next_write: false,
    };
    let now = t0 + 2880; // exactly 48 hours later
    let (n, released) = check_and_unlock_characters(&cat, &mut store, now).unwrap();
    assert!(released);
    // Eligible: char 3, and word 10 (components 1 and 2 introduced).
    // Word 11 is blocked: component 99 is unknown, so never introduced.
    assert_eq!(n, 2);
    assert_eq!(store.records.len(), 4);
    assert_eq!(store.last_unlock_date, format_datetime_minutes(now));
    // The batch sits in the ready queue, so the very next check-in no-ops.
    let (n2, r2) = check_and_unlock_characters(&cat, &mut store, now + 2880).unwrap();
    assert_eq!((n2, r2), (0, false));
}

#[test]
fn malformed_unlock_timer_fails_open() {
    let cat = small_catalog();
    let t0 = parse_datetime_minutes("2024-01-10 00:00:00").unwrap();
    let mut store = ProgressStore {
        records: vec![new_record(1, t0, true), new_record(2, t0, true), new_record(3, t0, true)],
        initial_unlock_completed: true,
        last_unlock_date: "not a timestamp".to_string(),
        fail_next_write: false,
    };
    let (n, released) = check_and_unlock_characters(&cat, &mut store, t0).unwrap();
    assert!(released); // treated as "cooldown elapsed"
    assert!(n >= 1);
}

#[test]
fn storage_fault_mid_batch_changes_nothing() {
    let cat = small_catalog();
    let t0 = parse_datetime_minutes("2024-01-10 00:00:00").unwrap();
    let mut store = ProgressStore {
        records: vec![new_record(1, t0, true), new_record(2, t0, true)],
        initial_unlock_completed: true,
        last_unlock_date: format_datetime_minutes(t0),
        fail_next_write: true, // the next transactional write fails
    };
    let now = t0 + 5000;
    let result = check_and_unlock_characters(&cat, &mut store, now);
    assert_eq!(result, Err(StoreError::Persistence));
    // Zero new records, unchanged timer.
    assert_eq!(store.records.len(), 2);
    assert_eq!(store.last_unlock_date, format_datetime_minutes(t0));
    assert!(!store.fail_next_write); // the injected fault was consumed
    // The retry goes through.
    let (n, released) = check_and_unlock_characters(&cat, &mut store, now).unwrap();
    assert!(released);
    assert!(n >= 1);
}

#[test]
fn hours_until_unlock_reports_queue_first() {
    let t0 = parse_datetime_minutes("2024-01-10 00:00:00").unwrap();
    let mut store = ProgressStore {
        records: vec![new_record(7, t0, false)], // one ready-queue record
        initial_unlock_completed: true,
        last_unlock_date: format_datetime_minutes(t0),
        fail_next_write: false,
    };
    // Queue not empty: no countdown, whatever the timer says.
    assert_eq!(get_hours_until_next_unlock(&store, t0 + 60), None);
    let status = get_unlock_status(&store, t0 + 60);
    assert_eq!(status.ready_to_learn_count, 1);
    assert_eq!(status.hours_until_next_unlock, None);
    // Drain the queue: countdown appears.
    store.mark_character_introduced(7);
    assert_eq!(get_hours_until_next_unlock(&store, t0 + 60), Some(47));
    assert_eq!(get_hours_until_next_unlock(&store, t0 + 2880), Some(0));
    // No timer at all: unlock now.
    store.last_unlock_date = String::new();
    assert_eq!(get_hours_until_next_unlock(&store, t0), Some(0));
}

#[test]
fn draining_the_queue_stamps_the_timer() {
    let t0 = parse_datetime_minutes("2024-01-10 00:00:00").unwrap();
    let mut store = ProgressStore {
        records: vec![new_record(1, t0, false)],
        initial_unlock_completed: true,
        last_unlock_date: String::new(),
        fail_next_write: false,
    };
    // Queue still holds an item: the timer is not touched.
    assert!(!mark_all_ready_characters_introduced(&mut store, t0));
    assert_eq!(store.last_unlock_date, "");
    store.mark_character_introduced(1);
    assert!(mark_all_ready_characters_introduced(&mut store, t0));
    assert_eq!(store.last_unlock_date, format_datetime_minutes(t0));
}

#[test]
fn word_scores_sit_above_their_components() {
    let cat = small_catalog();
    // Characters score at rank * 100.
    assert_eq!(calculate_introduction_score(&cat, &cat.items[0]), 100);
    assert_eq!(calculate_introduction_score(&cat, &cat.items[1]), 200);
    // Word 10 (rank 5, components ranked 1 and 2): 2 * 100 + 5.
    assert_eq!(calculate_introduction_score(&cat, &cat.items[3]), 205);
    assert!(calculate_introduction_score(&cat, &cat.items[3])
        > calculate_introduction_score(&cat, &cat.items[0]));
    assert!(calculate_introduction_score(&cat, &cat.items[3])
        > calculate_introduction_score(&cat, &cat.items[1]));
    // Word 11 resolves only component 3 (99 is missing): 3 * 100 + 4.
    assert_eq!(calculate_introduction_score(&cat, &cat.items[4]), 304);
    // A word with no resolvable components falls back far past every rank.
    let orphan = item(20, 9, true, vec![77, 88], "孤词");
    assert_eq!(calculate_introduction_score(&cat, &orphan), (100000 + 9) * 100);
}

#[test]
fn word_needs_every_component_introduced() {
    let cat = small_catalog();
    let t0 = 1000;
    let mut store = ProgressStore {
        records: vec![new_record(1, t0, true)],
        initial_unlock_completed: true,
        last_unlock_date: String::new(),
        fail_next_write: false,
    };
    // Only component 1 of word 10 is introduced.
    assert_eq!(get_eligible_words(&cat, &store, 10).len(), 0);
    store.records.push(new_record(2, t0, true));
    let eligible = get_eligible_words(&cat, &store, 10);
    assert_eq!(eligible.len(), 1);
    assert_eq!(cat.items[eligible[0]].character.id, 10);
    // The mixed batch is score-ordered: char 3 (300) before word 10 (205)?
    // No: 205 < 300, the word comes first.
    let batch = get_next_introduction_batch_mixed(&cat, &store, 10);
    assert_eq!(batch.len(), 2);
    assert_eq!(cat.items[batch[0]].character.id, 10);
    assert_eq!(cat.items[batch[1]].character.id, 3);
}

#[test]
fn answers_drive_mastery_monotonically() {
    let t0 = 1000u64;
    let mut store = ProgressStore {
        records: vec![new_record(1, t0, true)],
        initial_unlock_completed: true,
        last_unlock_date: String::new(),
        fail_next_write: false,
    };
    assert_eq!(
        store.record_srs_answer(42, true, t0),
        Err(StoreError::NotFound)
    );
    for _ in 0..MASTERY_THRESHOLD - 1 {
        store.record_srs_answer(1, true, t0).unwrap();
        assert!(!store.records[0].is_mastered);
    }
    store.record_srs_answer(1, true, t0).unwrap();
    assert!(store.records[0].is_mastered);
    assert_eq!(store.records[0].next_review_minute, None);
    assert_eq!(store.records[0].times_correct, MASTERY_THRESHOLD);
    // Mastery never reverts, whatever comes after — and the next review
    // stays cleared, so the item can never re-surface.
    store.record_srs_answer(1, false, t0).unwrap();
    assert!(store.records[0].is_mastered);
    assert_eq!(store.records[0].next_review_minute, None);
    store.record_srs_answer(1, true, t0).unwrap();
    assert!(store.records[0].is_mastered);
    assert_eq!(store.records[0].next_review_minute, None);
}

#[test]
fn answer_updates_shift_intervals_and_counters() {
    let t0 = 1000u64;
    let mut store = ProgressStore {
        records: vec![new_record(1, t0, true)],
        initial_unlock_completed: true,
        last_unlock_date: String::new(),
        fail_next_write: false,
    };
    let milestone = store.record_srs_answer(1, true, t0).unwrap();
    assert!(!milestone);
    assert_eq!(store.records[0].current_interval_minutes, 720);
    assert_eq!(store.records[0].previous_interval_minutes, 60);
    assert_eq!(store.records[0].times_reviewed, 1);
    // Next review lands on a half-hour boundary: 1000 + 720 = 1720 -> 1710.
    assert_eq!(store.records[0].next_review_minute, Some(1710));
    // A storage fault rolls the whole answer back.
    store.fail_next_write = true;
    assert_eq!(
        store.record_srs_answer(1, false, t0),
        Err(StoreError::Persistence)
    );
    assert_eq!(store.records[0].times_reviewed, 1);
    assert_eq!(store.records[0].current_interval_minutes, 720);
}

#[test]
fn due_and_self_study_selection_exclude_mastered() {
    let cat = small_catalog();
    let t0 = 10000u64;
    let mut due_a = new_record(1, t0, true);
    due_a.next_review_minute = Some(t0 - 100);
    let mut due_b = new_record(2, t0, true);
    due_b.next_review_minute = Some(t0 - 500);
    let mut mastered = new_record(3, t0, true);
    mastered.is_mastered = true;
    mastered.next_review_minute = Some(t0 - 900);
    let store = ProgressStore {
        records: vec![due_a, due_b, mastered],
        initial_unlock_completed: true,
        last_unlock_date: String::new(),
        fail_next_write: false,
    };
    let cards = get_due_cards(&cat, &store, t0);
    assert_eq!(cards.len(), 2);
    // Earliest review first.
    assert_eq!(cards[0].character_id, 2);
    assert_eq!(cards[1].character_id, 1);
    assert_eq!(cards[0].character, "人");
    // Self-study offers only cards that are not currently due.
    let log = PracticeLog::new();
    let study = get_self_study_cards(&cat, &store, &log, t0, 10);
    assert_eq!(study.len(), 0);
}

#[test]
fn self_study_prefers_least_recently_practiced() {
    let cat = small_catalog();
    let t0 = 10000u64;
    let mut a = new_record(1, t0, true);
    a.next_review_minute = Some(t0 + 500);
    let mut b = new_record(2, t0, true);
    b.next_review_minute = Some(t0 + 500);
    let store = ProgressStore {
        records: vec![a, b],
        initial_unlock_completed: true,
        last_unlock_date: String::new(),
        fail_next_write: false,
    };
    let mut log = PracticeLog::new();
    log.record_practice_history(
        1,
        "self-study".to_string(),
        "hanzi-to-pinyin".to_string(),
        "yi1".to_string(),
        true,
        t0 - 50,
    );
    let study = get_self_study_cards(&cat, &store, &log, t0, 10);
    assert_eq!(study.len(), 2);
    // Item 2 was never practiced, so it comes first.
    assert_eq!(study[0].character_id, 2);
    assert_eq!(study[1].character_id, 1);
    let one = get_self_study_cards(&cat, &store, &log, t0, 1);
    assert_eq!(one.len(), 1);
    assert_eq!(one[0].character_id, 2);
}

#[test]
fn unlock_next_character_takes_the_lowest_rank() {
    let cat = small_catalog();
    let mut store = empty_store();
    store.initial_unlock_completed = true;
    let got = unlock_next_character(&cat, &mut store, 500).unwrap().unwrap();
    assert_eq!(got.id, 1);
    assert_eq!(store.records.len(), 1);
    assert!(!store.records[0].introduced);
    let got2 = unlock_next_character(&cat, &mut store, 500).unwrap().unwrap();
    assert_eq!(got2.id, 2);
}

#[test]
fn introduce_multiple_inserts_introduced_records() {
    let cat = small_catalog();
    let mut store = empty_store();
    let n = introduce_multiple_characters(&cat, &mut store, 2, 700).unwrap();
    assert_eq!(n, 2);
    assert!(store.records[0].introduced);
    assert_eq!(store.records[0].character_id, 1);
    assert_eq!(store.records[1].character_id, 2);
    let ready = get_unlocked_characters_batch(&cat, &store, 10);
    assert_eq!(ready.len(), 0); // nothing waits in the ready queue
}

#[test]
fn initial_study_batch_flow() {
    let cat = small_catalog();
    let t0 = 3000u64;
    let mut store = ProgressStore {
        records: vec![new_record(1, t0, false), new_record(2, t0, false)],
        initial_unlock_completed: true,
        last_unlock_date: String::new(),
        fail_next_write: false,
    };
    let ready = get_unlocked_characters_batch(&cat, &store, 10);
    assert_eq!(ready.len(), 2);
    let ids = vec![1, 2];
    store.complete_initial_srs_session(&ids, t0);
    assert!(store.records[0].introduced);
    assert_eq!(store.records[0].next_review_minute, Some(t0 + 60));
    let cards = get_characters_for_initial_study(&cat, &store, &ids);
    assert_eq!(cards.len(), 2);
    assert_eq!(cards[0].character, "一");
    // An interrupted batch becomes due immediately.
    let mut store2 = ProgressStore {
        records: vec![new_record(1, t0, false)],
        initial_unlock_completed: true,
        last_unlock_date: String::new(),
        fail_next_write: false,
    };
    store2.mark_incomplete_characters_reviewable(&vec![1], t0);
    assert_eq!(store2.records[0].next_review_minute, Some(t0 - 1));
}

#[test]
fn browse_order_is_score_sorted_and_paged() {
    let cat = small_catalog();
    let all = get_browse_items_introduction_order(&cat, 0, 10);
    assert_eq!(all.len(), 5);
    // Scores: 100, 200, 205 (word 10), 300, 304 (word 11).
    assert_eq!(cat.items[all[0]].character.id, 1);
    assert_eq!(cat.items[all[1]].character.id, 2);
    assert_eq!(cat.items[all[2]].character.id, 10);
    assert_eq!(cat.items[all[3]].character.id, 3);
    assert_eq!(cat.items[all[4]].character.id, 11);
    let page = get_browse_items_introduction_order(&cat, 2, 2);
    assert_eq!(page.len(), 2);
    assert_eq!(cat.items[page[0]].character.id, 10);
    assert_eq!(cat.items[page[1]].character.id, 3);
}

#[test]
fn top_characters_come_back_rank_ordered() {
    let cat = small_catalog();
    let top = hanzi_srs::scheduler::get_characters_by_frequency(&cat, 2);
    assert_eq!(top.len(), 2);
    assert_eq!(cat.items[top[0]].character.id, 1);
    assert_eq!(cat.items[top[1]].character.id, 2);
    let all = hanzi_srs::scheduler::get_characters_by_frequency(&cat, 100);
    assert_eq!(all.len(), 3); // words never appear
}

#[test]
fn word_components_resolve_all_or_nothing() {
    let cat = small_catalog();
    // "一人": both characters exist as single-character items.
    let ids = cat.component_ids_for_word("一人").unwrap();
    assert_eq!(ids, vec![1, 2]);
    // "一外": the second character has no catalog item.
    assert!(cat.component_ids_for_word("一外").is_none());
    assert_eq!(cat.component_ids_for_word("").unwrap(), Vec::<i32>::new());
}

#[test]
fn streaks_count_consecutive_days() {
    assert_eq!(calculate_study_streak(&vec![], 100), 0);
    assert_eq!(calculate_study_streak(&vec![100, 99, 98], 100), 3);
    assert_eq!(calculate_study_streak(&vec![99, 98], 100), 2); // studied yesterday
    assert_eq!(calculate_study_streak(&vec![100, 98, 97], 100), 1); // gap breaks it
    assert_eq!(calculate_study_streak(&vec![97], 100), 0); // stale
}

#[test]
fn session_log_and_dashboard() {
    let mut log = SessionLog::new();
    let id = log.start_study_session("srs".to_string(), 600);
    assert_eq!(id, 1);
    log.end_study_session(id, 10, 8, 2, 660);
    assert_eq!(log.sessions[0].cards_studied, 10);
    assert_eq!(log.sessions[0].duration_seconds, Some(3600));
    let id2 = log.start_study_session("self-study".to_string(), 700);
    let recent = log.get_recent_sessions(5);
    assert_eq!(recent.len(), 2);
    assert_eq!(recent[0].id, id2);

    let t0 = 10000u64;
    let mut due = new_record(1, t0, true);
    due.next_review_minute = Some(t0 - 10);
    let store = ProgressStore {
        records: vec![due, new_record(2, t0, false)],
        initial_unlock_completed: true,
        last_unlock_date: String::new(),
        fail_next_write: false,
    };
    let stats = get_dashboard_stats(&store, t0, 3);
    assert_eq!(stats.total_characters_learned, 1);
    assert_eq!(stats.characters_in_srs, 2);
    assert_eq!(stats.cards_due_today, 1);
    assert_eq!(stats.study_streak_days, 3);

    let cat = small_catalog();
    let info = get_database_debug_info(&cat, &store);
    assert_eq!(info.total_characters, 3);
    assert_eq!(info.characters_in_progress, 2);
    assert_eq!(info.ready_to_learn, 1);
    assert_eq!(info.introduced, 1);
    assert_eq!(info.initial_unlock_completed, "true");
}

#[test]
fn review_calendar_groups_by_day() {
    let t0 = parse_datetime_minutes("2024-01-10 10:00:00").unwrap();
    let mut a = new_record(1, t0, true);
    a.next_review_minute = Some(t0 + 60); // later today
    let mut b = new_record(2, t0, true);
    b.next_review_minute = Some(t0 + 1440); // tomorrow
    let mut c = new_record(3, t0, true);
    c.next_review_minute = Some(t0 + 1500); // also tomorrow
    let store = ProgressStore {
        records: vec![a, b, c],
        initial_unlock_completed: true,
        last_unlock_date: String::new(),
        fail_next_write: false,
    };
    let entries = get_review_calendar(&store, t0, 7);
    assert_eq!(entries.len(), 2);
    assert_eq!(entries[0].date, "2024-01-10");
    assert_eq!(entries[0].cards_due, 1);
    assert_eq!(entries[1].date, "2024-01-11");
    assert_eq!(entries[1].cards_due, 2);
    assert_eq!(entries[1].earliest_review_time, "2024-01-11 10:00:00");
}
