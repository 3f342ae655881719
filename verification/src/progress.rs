//! The progress store model: one record per tracked item, plus the two
//! scheduler settings (the initialization flag and the unlock timer).
//!
//! The store is the library's picture of the durable table store. Batch
//! inserts and answer updates are transactional: a storage fault (modeled by
//! `fail_next_write`, which a caller or test arms) makes the next such
//! operation fail with `StoreError::Persistence` and leave every record and
//! setting exactly as it was.

use vstd::prelude::*;
use crate::srs::{SrsCard, calculate_next_review, round_down_to_half_hour,
    new_interval_spec, new_ease_spec, TIER_HOUR, TIER_WEEK, HALF_HOUR, MASTERY_THRESHOLD,
    EASE_MAX, EASE_MIN};

verus! {

/// The SRS state of one tracked item.
#[derive(Debug, Clone)]
pub struct ProgressRecord {
    pub character_id: i32,
    pub current_interval_minutes: u64,
    pub previous_interval_minutes: u64,
    pub ease_factor_centi: u32,
    pub times_reviewed: i32,
    pub times_correct: i32,
    pub times_incorrect: i32,
    pub has_reached_week: bool,
    pub introduced: bool,
    pub is_mastered: bool,
    pub next_review_minute: Option<u64>,
    pub last_reviewed_minute: Option<u64>,
}

/// How a store operation fails.
#[derive(Debug, Clone, Copy, PartialEq, Eq, Structural)]
pub enum StoreError {
    /// The item has no progress record.
    NotFound,
    /// The storage layer failed; the enclosing transaction was rolled back.
    Persistence,
}

/// Number of records in `s` that are unlocked but not yet introduced (the
/// ready-to-learn queue).
pub open spec fn count_ready(s: Seq<ProgressRecord>) -> int
    decreases s.len(),
{
    if s.len() == 0 {
        0
    } else {
        count_ready(s.drop_last()) + if !s.last().introduced {
            1int
        } else {
            0int
        }
    }
}

/// Number of introduced records in `s`.
pub open spec fn count_introduced(s: Seq<ProgressRecord>) -> int
    decreases s.len(),
{
    if s.len() == 0 {
        0
    } else {
        count_introduced(s.drop_last()) + if s.last().introduced {
            1int
        } else {
            0int
        }
    }
}

/// Counting the ready queue distributes over concatenation.
pub proof fn lemma_count_ready_append(a: Seq<ProgressRecord>, b: Seq<ProgressRecord>)
    ensures
        count_ready(a + b) == count_ready(a) + count_ready(b),
    decreases b.len(),
{
    if b.len() == 0 {
        assert(a + b =~= a);
    } else {
        lemma_count_ready_append(a, b.drop_last());
        assert((a + b).drop_last() =~= a + b.drop_last());
    }
}

/// The interval-engine view of a record.
pub open spec fn card_of_record(rec: ProgressRecord) -> SrsCard {
    SrsCard {
        character_id: rec.character_id,
        current_interval_minutes: rec.current_interval_minutes,
        previous_interval_minutes: rec.previous_interval_minutes,
        ease_factor_centi: rec.ease_factor_centi,
        times_correct: rec.times_correct,
        times_incorrect: rec.times_incorrect,
        has_reached_week: rec.has_reached_week,
    }
}

/// A next-review time rounded down to the half hour.
pub open spec fn round_half_hour_spec(t: int) -> int {
    (HALF_HOUR as int) * (t / (HALF_HOUR as int))
}

/// Whether this answer fires the one-week milestone.
pub open spec fn answer_milestone(rec: ProgressRecord, correct: bool) -> bool {
    !rec.has_reached_week && new_interval_spec(card_of_record(rec), correct) >= TIER_WEEK as int
}

/// Whether this answer pushes the record into the terminal mastered state.
pub open spec fn answer_masters(rec: ProgressRecord, correct: bool) -> bool {
    correct && rec.times_correct + 1 >= MASTERY_THRESHOLD as int
}

/// The record after one answer: the engine's new interval and ease factor,
/// shifted previous interval, bumped counters, sticky milestone flag, and —
/// on reaching the mastery threshold — the terminal mastered state with the
/// next review cleared. A record that is already mastered keeps its next
/// review cleared through any further answer, so it can never re-surface.
pub open spec fn srs_applied(rec: ProgressRecord, correct: bool, now: int) -> ProgressRecord {
    let card = card_of_record(rec);
    let ni = new_interval_spec(card, correct);
    let ne = new_ease_spec(card, correct);
    let mastered_now = answer_masters(rec, correct);
    ProgressRecord {
        current_interval_minutes: ni as u64,
        previous_interval_minutes: rec.current_interval_minutes,
        ease_factor_centi: ne as u32,
        times_reviewed: (rec.times_reviewed + 1) as i32,
        times_correct: if correct {
            (rec.times_correct + 1) as i32
        } else {
            rec.times_correct
        },
        times_incorrect: if correct {
            rec.times_incorrect
        } else {
            (rec.times_incorrect + 1) as i32
        },
        has_reached_week: rec.has_reached_week || answer_milestone(rec, correct),
        is_mastered: rec.is_mastered || mastered_now,
        next_review_minute: if rec.is_mastered || mastered_now {
            None
        } else {
            Some(round_half_hour_spec(now + ni) as u64)
        },
        last_reviewed_minute: Some(now as u64),
        ..rec
    }
}

/// Law: mastery is terminal. Applying any further answer — right or wrong
/// — to a mastered record leaves it mastered, with its next review still
/// cleared.
pub proof fn lemma_mastery_monotonic(rec: ProgressRecord, correct: bool, now: int)
    ensures
        rec.is_mastered ==> srs_applied(rec, correct, now).is_mastered,
        rec.is_mastered ==> srs_applied(rec, correct, now).next_review_minute is None,
{
}

/// Law: one answer keeps the ease factor within its clamp bounds.
pub proof fn lemma_answer_keeps_ease_bounds(rec: ProgressRecord, correct: bool, now: int)
    requires
        EASE_MIN <= rec.ease_factor_centi <= EASE_MAX,
    ensures
        EASE_MIN <= srs_applied(rec, correct, now).ease_factor_centi <= EASE_MAX,
{
}

/// The machine-limit side conditions for applying one answer to a record.
pub open spec fn record_update_ok(rec: ProgressRecord, correct: bool, now: int) -> bool {
    &&& correct ==> rec.current_interval_minutes as int * rec.ease_factor_centi as int
        <= u64::MAX as int
    &&& now + new_interval_spec(card_of_record(rec), correct) <= u64::MAX as int
    &&& rec.times_reviewed < i32::MAX
    &&& rec.times_correct < i32::MAX
    &&& rec.times_incorrect < i32::MAX
    &&& now >= 0
}

/// The store: all progress records plus the scheduler settings.
#[derive(Debug)]
pub struct ProgressStore {
    pub records: Vec<ProgressRecord>,
    /// Whether the one-time initial unlock has run.
    pub initial_unlock_completed: bool,
    /// The unlock timer, as `YYYY-MM-DD HH:MM:SS` text; empty when unset.
    pub last_unlock_date: String,
    /// Models a storage fault: when armed, the next transactional write
    /// fails and changes nothing.
    pub fail_next_write: bool,
}

/// Records and settings of `a` and `b` agree (the fault flag may differ).
pub open spec fn same_store_data(a: ProgressStore, b: ProgressStore) -> bool {
    &&& a.records@ == b.records@
    &&& a.initial_unlock_completed == b.initial_unlock_completed
    &&& a.last_unlock_date@ == b.last_unlock_date@
}

/// The fresh record an unlocked item starts with: one-hour interval, ease at
/// the ceiling, review due immediately.
pub open spec fn fresh_record_spec(character_id: i32, now: int, introduced: bool) -> ProgressRecord {
    ProgressRecord {
        character_id,
        current_interval_minutes: TIER_HOUR,
        previous_interval_minutes: TIER_HOUR,
        ease_factor_centi: EASE_MAX,
        times_reviewed: 0,
        times_correct: 0,
        times_incorrect: 0,
        has_reached_week: false,
        introduced,
        is_mastered: false,
        next_review_minute: Some(now as u64),
        last_reviewed_minute: None,
    }
}

/// Build the fresh record for a newly unlocked item.
pub fn new_record(character_id: i32, now_minutes: u64, introduced: bool) -> (r: ProgressRecord)
    ensures
        r == fresh_record_spec(character_id, now_minutes as int, introduced),
{
    ProgressRecord {
        character_id,
        current_interval_minutes: TIER_HOUR,
        previous_interval_minutes: TIER_HOUR,
        ease_factor_centi: EASE_MAX,
        times_reviewed: 0,
        times_correct: 0,
        times_incorrect: 0,
        has_reached_week: false,
        introduced,
        is_mastered: false,
        next_review_minute: Some(now_minutes),
        last_reviewed_minute: None,
    }
}

/// A record made reviewable on the spot: shown to the learner, back on the
/// smallest interval, next review at the given minute.
pub open spec fn reviewable_applied(rec: ProgressRecord, next: int) -> ProgressRecord {
    ProgressRecord {
        introduced: true,
        current_interval_minutes: TIER_HOUR,
        next_review_minute: Some(next as u64),
        ..rec
    }
}

impl ProgressStore {
    /// Well-formed: one record per item id.
    pub open spec fn wf(self) -> bool {
        forall|i: int, j: int|
            0 <= i < j < self.records@.len() ==> self.records@[i].character_id
                != self.records@[j].character_id
    }

    pub open spec fn spec_contains(self, id: i32) -> bool {
        exists|i: int| 0 <= i < self.records@.len() && self.records@[i].character_id == id
    }

    pub open spec fn index_of(self, id: i32) -> int {
        choose|i: int| 0 <= i < self.records@.len() && self.records@[i].character_id == id
    }

    /// Whether the item is tracked and already shown to the learner.
    pub open spec fn spec_introduced(self, id: i32) -> bool {
        exists|i: int|
            0 <= i < self.records@.len() && self.records@[i].character_id == id
                && self.records@[i].introduced
    }

    /// Whether the item sits in the ready-to-learn queue: tracked, not yet
    /// introduced.
    pub open spec fn spec_ready(self, id: i32) -> bool {
        exists|i: int|
            0 <= i < self.records@.len() && self.records@[i].character_id == id
                && !self.records@[i].introduced
    }

    /// An empty store with both settings in their initial state.
    pub fn new() -> (r: ProgressStore)
        ensures
            r.records@.len() == 0,
            !r.initial_unlock_completed,
            r.last_unlock_date@ == Seq::<char>::empty(),
            !r.fail_next_write,
            r.wf(),
    {
        ProgressStore {
            records: Vec::new(),
            initial_unlock_completed: false,
            last_unlock_date: String::new(),
            fail_next_write: false,
        }
    }

    /// Find the position of the record for this item.
    pub fn find_index(&self, id: i32) -> (r: Option<usize>)
        ensures
            r is Some <==> self.spec_contains(id),
            r matches Some(i) ==> 0 <= i < self.records@.len()
                && self.records@[i as int].character_id == id,
    {
        let n = self.records.len();
        let mut i: usize = 0;
        while i < n
            invariant
                n == self.records@.len(),
                0 <= i <= n,
                forall|j: int| 0 <= j < i ==> self.records@[j].character_id != id,
            decreases n - i,
        {
            if self.records[i].character_id == id {
                return Some(i);
            }
            i = i + 1;
        }
        None
    }

    /// The interval-engine view of one record, as `getRecord` hands it to
    /// the engine.
    pub fn get_srs_card_state(&self, character_id: i32) -> (r: Result<SrsCard, StoreError>)
        ensures
            r is Ok <==> self.spec_contains(character_id),
            r matches Ok(card) ==> exists|i: int|
                0 <= i < self.records@.len() && self.records@[i].character_id == character_id
                    && card == card_of_record(self.records@[i]),
            r is Err ==> r == Err::<SrsCard, StoreError>(StoreError::NotFound),
    {
        match self.find_index(character_id) {
            Some(i) => {
                let rec = &self.records[i];
                Ok(SrsCard {
                    character_id: rec.character_id,
                    current_interval_minutes: rec.current_interval_minutes,
                    previous_interval_minutes: rec.previous_interval_minutes,
                    ease_factor_centi: rec.ease_factor_centi,
                    times_correct: rec.times_correct,
                    times_incorrect: rec.times_incorrect,
                    has_reached_week: rec.has_reached_week,
                })
            },
            None => Err(StoreError::NotFound),
        }
    }

    /// Size of the ready-to-learn queue: unlocked, not yet introduced.
    pub fn get_ready_to_learn_count(&self) -> (r: usize)
        ensures
            r as int == count_ready(self.records@),
    {
        let n = self.records.len();
        let mut i: usize = 0;
        let mut acc: usize = 0;
        while i < n
            invariant
                n == self.records@.len(),
                0 <= i <= n,
                acc as int == count_ready(self.records@.take(i as int)),
                acc <= i,
            decreases n - i,
        {
            proof {
                assert(self.records@.take(i as int + 1).drop_last() =~= self.records@.take(
                    i as int,
                ));
            }
            if !self.records[i].introduced {
                acc = acc + 1;
            }
            i = i + 1;
        }
        proof {
            assert(self.records@.take(n as int) =~= self.records@);
        }
        acc
    }

    /// Number of items already introduced to the learner.
    pub fn get_introduced_count(&self) -> (r: usize)
        ensures
            r as int == count_introduced(self.records@),
    {
        let n = self.records.len();
        let mut i: usize = 0;
        let mut acc: usize = 0;
        while i < n
            invariant
                n == self.records@.len(),
                0 <= i <= n,
                acc as int == count_introduced(self.records@.take(i as int)),
                acc <= i,
            decreases n - i,
        {
            proof {
                assert(self.records@.take(i as int + 1).drop_last() =~= self.records@.take(
                    i as int,
                ));
            }
            if self.records[i].introduced {
                acc = acc + 1;
            }
            i = i + 1;
        }
        proof {
            assert(self.records@.take(n as int) =~= self.records@);
        }
        acc
    }

    /// Whether this item id is tracked and introduced.
    pub fn is_introduced(&self, id: i32) -> (r: bool)
        requires
            self.wf(),
        ensures
            r == self.spec_introduced(id),
    {
        match self.find_index(id) {
            Some(i) => {
                proof {
                    if self.records@[i as int].introduced {
                        assert(self.spec_introduced(id));
                    } else {
                        assert(forall|j: int|
                            0 <= j < self.records@.len() && self.records@[j].character_id == id
                                ==> j == i as int);
                    }
                }
                self.records[i].introduced
            },
            None => false,
        }
    }

    /// Insert a batch of records and the accompanying setting updates as one
    /// atomic transaction: either every row and setting lands, or (on an
    /// armed storage fault) none do.
    pub fn insert_batch(
        &mut self,
        batch: Vec<ProgressRecord>,
        stamp_last_unlock: Option<String>,
        mark_initialized: bool,
    ) -> (r: Result<usize, StoreError>)
        requires
            old(self).wf(),
            forall|i: int, j: int|
                0 <= i < j < batch@.len() ==> batch@[i].character_id != batch@[j].character_id,
            forall|i: int|
                0 <= i < batch@.len() ==> !old(self).spec_contains(
                    #[trigger] batch@[i].character_id,
                ),
        ensures
            final(self).wf(),
            !final(self).fail_next_write,
            old(self).fail_next_write ==> r == Err::<usize, StoreError>(StoreError::Persistence)
                && same_store_data(*final(self), *old(self)),
            !old(self).fail_next_write ==> {
                &&& r == Ok::<usize, StoreError>(batch@.len() as usize)
                &&& final(self).records@ == old(self).records@ + batch@
                &&& final(self).initial_unlock_completed == (old(self).initial_unlock_completed
                    || mark_initialized)
                &&& final(self).last_unlock_date@ == (match stamp_last_unlock {
                    Some(s) => s@,
                    None => old(self).last_unlock_date@,
                })
            },
    {
        if self.fail_next_write {
            self.fail_next_write = false;
            return Err(StoreError::Persistence);
        }
        let count = batch.len();
        let mut rows = batch;
        let ghost old_records = self.records@;
        self.records.append(&mut rows);
        match stamp_last_unlock {
            Some(s) => {
                self.last_unlock_date = s;
            },
            None => {},
        }
        if mark_initialized {
            self.initial_unlock_completed = true;
        }
        proof {
            assert forall|i: int, j: int|
                0 <= i < j < self.records@.len() implies self.records@[i].character_id
                != self.records@[j].character_id by {
                if j >= old_records.len() && i < old_records.len() {
                    assert(!(exists|k: int|
                        0 <= k < old_records.len() && old_records[k].character_id
                            == self.records@[j].character_id));
                }
            }
        }
        Ok(count)
    }

    /// Apply one answer to an item's record, as a single transaction: shift
    /// the intervals through the engine, bump the counters, stamp the next
    /// review on a half-hour boundary, and on reaching the mastery
    /// threshold move the record to the terminal mastered state. Returns
    /// whether the one-week milestone fired for the first time.
    ///
    /// A record that is mastered stays mastered, with its next review
    /// still cleared, whatever the answer.
    pub fn record_srs_answer(&mut self, character_id: i32, correct: bool, now_minutes: u64) -> (r:
        Result<bool, StoreError>)
        requires
            old(self).wf(),
            forall|i: int|
                0 <= i < old(self).records@.len() && old(self).records@[i].character_id
                    == character_id ==> record_update_ok(
                    #[trigger] old(self).records@[i],
                    correct,
                    now_minutes as int,
                ),
        ensures
            final(self).wf(),
            !old(self).spec_contains(character_id) ==> {
                &&& r == Err::<bool, StoreError>(StoreError::NotFound)
                &&& same_store_data(*final(self), *old(self))
                &&& final(self).fail_next_write == old(self).fail_next_write
            },
            old(self).spec_contains(character_id) && old(self).fail_next_write ==> {
                &&& r == Err::<bool, StoreError>(StoreError::Persistence)
                &&& same_store_data(*final(self), *old(self))
                &&& !final(self).fail_next_write
            },
            old(self).spec_contains(character_id) && !old(self).fail_next_write ==> {
                let i = old(self).index_of(character_id);
                &&& r == Ok::<bool, StoreError>(answer_milestone(old(self).records@[i], correct))
                &&& final(self).records@ == old(self).records@.update(
                    i,
                    srs_applied(old(self).records@[i], correct, now_minutes as int),
                )
                &&& final(self).initial_unlock_completed == old(self).initial_unlock_completed
                &&& final(self).last_unlock_date@ == old(self).last_unlock_date@
                &&& !final(self).fail_next_write
            },
            // Mastery is monotonic: no record ever leaves the mastered state.
            forall|j: int|
                0 <= j < old(self).records@.len() && old(self).records@[j].is_mastered
                    ==> final(self).records@[j].is_mastered,
    {
        let idx = match self.find_index(character_id) {
            Some(i) => i,
            None => {
                return Err(StoreError::NotFound);
            },
        };
        proof {
            let w = self.index_of(character_id);
            assert(self.records@[w].character_id == character_id);
            assert(w == idx as int);
        }
        if self.fail_next_write {
            self.fail_next_write = false;
            return Err(StoreError::Persistence);
        }
        let rec = &self.records[idx];
        let card = SrsCard {
            character_id: rec.character_id,
            current_interval_minutes: rec.current_interval_minutes,
            previous_interval_minutes: rec.previous_interval_minutes,
            ease_factor_centi: rec.ease_factor_centi,
            times_correct: rec.times_correct,
            times_incorrect: rec.times_incorrect,
            has_reached_week: rec.has_reached_week,
        };
        let update = calculate_next_review(&card, correct, now_minutes);
        let rounded = round_down_to_half_hour(update.next_review_minute);
        let new_times_correct = if correct {
            rec.times_correct + 1
        } else {
            rec.times_correct
        };
        let mastered_now = correct && new_times_correct >= MASTERY_THRESHOLD;
        let new_rec = ProgressRecord {
            character_id: rec.character_id,
            current_interval_minutes: update.new_interval_minutes,
            previous_interval_minutes: rec.current_interval_minutes,
            ease_factor_centi: update.new_ease_factor_centi,
            times_reviewed: rec.times_reviewed + 1,
            times_correct: new_times_correct,
            times_incorrect: if correct {
                rec.times_incorrect
            } else {
                rec.times_incorrect + 1
            },
            has_reached_week: rec.has_reached_week || update.reached_week_for_first_time,
            introduced: rec.introduced,
            is_mastered: rec.is_mastered || mastered_now,
            next_review_minute: if rec.is_mastered || mastered_now {
                None
            } else {
                Some(rounded)
            },
            last_reviewed_minute: Some(now_minutes),
        };
        let milestone = update.reached_week_for_first_time;
        self.records[idx] = new_rec;
        Ok(milestone)
    }

    /// Mark one item as introduced to the learner; an untracked id is a
    /// silent no-op, as the underlying row update would be.
    pub fn mark_character_introduced(&mut self, character_id: i32)
        ensures
            final(self).records@.len() == old(self).records@.len(),
            forall|j: int|
                0 <= j < old(self).records@.len() ==> final(self).records@[j] == (
                if old(self).records@[j].character_id == character_id {
                    ProgressRecord { introduced: true, ..old(self).records@[j] }
                } else {
                    old(self).records@[j]
                }),
            final(self).initial_unlock_completed == old(self).initial_unlock_completed,
            final(self).last_unlock_date@ == old(self).last_unlock_date@,
            final(self).fail_next_write == old(self).fail_next_write,
    {
        let n = self.records.len();
        let mut i: usize = 0;
        while i < n
            invariant
                n == self.records@.len(),
                0 <= i <= n,
                forall|j: int|
                    i <= j < n ==> self.records@[j] == old(self).records@[j],
                forall|j: int|
                    0 <= j < i ==> self.records@[j] == (
                    if old(self).records@[j].character_id == character_id {
                        ProgressRecord { introduced: true, ..old(self).records@[j] }
                    } else {
                        old(self).records@[j]
                    }),
                self.initial_unlock_completed == old(self).initial_unlock_completed,
                self.last_unlock_date@ == old(self).last_unlock_date@,
                self.fail_next_write == old(self).fail_next_write,
            decreases n - i,
        {
            if self.records[i].character_id == character_id {
                let r = &self.records[i];
                let updated = ProgressRecord {
                    character_id: r.character_id,
                    current_interval_minutes: r.current_interval_minutes,
                    previous_interval_minutes: r.previous_interval_minutes,
                    ease_factor_centi: r.ease_factor_centi,
                    times_reviewed: r.times_reviewed,
                    times_correct: r.times_correct,
                    times_incorrect: r.times_incorrect,
                    has_reached_week: r.has_reached_week,
                    introduced: true,
                    is_mastered: r.is_mastered,
                    next_review_minute: r.next_review_minute,
                    last_reviewed_minute: r.last_reviewed_minute,
                };
                self.records[i] = updated;
            }
            i = i + 1;
        }
    }

    /// Whether this item id sits in the ready-to-learn queue.
    pub fn is_ready(&self, id: i32) -> (r: bool)
        requires
            self.wf(),
        ensures
            r == self.spec_ready(id),
    {
        match self.find_index(id) {
            Some(i) => {
                proof {
                    if !self.records@[i as int].introduced {
                        assert(self.spec_ready(id));
                    } else {
                        assert(forall|j: int|
                            0 <= j < self.records@.len() && self.records@[j].character_id == id
                                ==> j == i as int);
                    }
                }
                !self.records[i].introduced
            },
            None => false,
        }
    }

    /// Mark one item's record introduced and immediately reviewable, with
    /// its next review at `next_minute`.
    pub fn set_reviewable_at(&mut self, character_id: i32, next_minute: u64)
        ensures
            final(self).records@.len() == old(self).records@.len(),
            forall|j: int|
                0 <= j < old(self).records@.len() ==> final(self).records@[j] == (
                if old(self).records@[j].character_id == character_id {
                    reviewable_applied(old(self).records@[j], next_minute as int)
                } else {
                    old(self).records@[j]
                }),
            final(self).initial_unlock_completed == old(self).initial_unlock_completed,
            final(self).last_unlock_date@ == old(self).last_unlock_date@,
            final(self).fail_next_write == old(self).fail_next_write,
    {
        let n = self.records.len();
        let mut i: usize = 0;
        while i < n
            invariant
                n == self.records@.len(),
                0 <= i <= n,
                forall|j: int| i <= j < n ==> self.records@[j] == old(self).records@[j],
                forall|j: int|
                    0 <= j < i ==> self.records@[j] == (
                    if old(self).records@[j].character_id == character_id {
                        reviewable_applied(old(self).records@[j], next_minute as int)
                    } else {
                        old(self).records@[j]
                    }),
                self.initial_unlock_completed == old(self).initial_unlock_completed,
                self.last_unlock_date@ == old(self).last_unlock_date@,
                self.fail_next_write == old(self).fail_next_write,
            decreases n - i,
        {
            if self.records[i].character_id == character_id {
                let r = &self.records[i];
                let updated = ProgressRecord {
                    character_id: r.character_id,
                    current_interval_minutes: TIER_HOUR,
                    previous_interval_minutes: r.previous_interval_minutes,
                    ease_factor_centi: r.ease_factor_centi,
                    times_reviewed: r.times_reviewed,
                    times_correct: r.times_correct,
                    times_incorrect: r.times_incorrect,
                    has_reached_week: r.has_reached_week,
                    introduced: true,
                    is_mastered: r.is_mastered,
                    next_review_minute: Some(next_minute),
                    last_reviewed_minute: r.last_reviewed_minute,
                };
                self.records[i] = updated;
            }
            i = i + 1;
        }
    }

    /// Mark one item introduced with its review due right away (one minute
    /// in the past, so it is already due).
    pub fn introduce_character_immediately_reviewable(&mut self, character_id: i32, now_minutes:
        u64)
        ensures
            final(self).records@.len() == old(self).records@.len(),
            forall|j: int|
                0 <= j < old(self).records@.len() ==> final(self).records@[j] == (
                if old(self).records@[j].character_id == character_id {
                    reviewable_applied(
                        old(self).records@[j],
                        if now_minutes > 0 {
                            now_minutes - 1
                        } else {
                            0
                        },
                    )
                } else {
                    old(self).records@[j]
                }),
            final(self).initial_unlock_completed == old(self).initial_unlock_completed,
            final(self).last_unlock_date@ == old(self).last_unlock_date@,
            final(self).fail_next_write == old(self).fail_next_write,
    {
        let next = if now_minutes > 0 {
            now_minutes - 1
        } else {
            0
        };
        self.set_reviewable_at(character_id, next);
    }

    /// Mark a studied batch introduced, each with its first spaced review an
    /// hour out.
    pub fn complete_initial_srs_session(&mut self, character_ids: &Vec<i32>, now_minutes: u64)
        requires
            now_minutes as int + TIER_HOUR as int <= u64::MAX as int,
        ensures
            final(self).records@.len() == old(self).records@.len(),
            forall|j: int|
                0 <= j < old(self).records@.len() ==> final(self).records@[j] == (
                if character_ids@.contains(old(self).records@[j].character_id) {
                    reviewable_applied(old(self).records@[j], now_minutes + TIER_HOUR)
                } else {
                    old(self).records@[j]
                }),
            final(self).initial_unlock_completed == old(self).initial_unlock_completed,
            final(self).last_unlock_date@ == old(self).last_unlock_date@,
            final(self).fail_next_write == old(self).fail_next_write,
    {
        let next = now_minutes + TIER_HOUR;
        self.set_reviewable_batch(character_ids, next);
    }

    /// Mark an interrupted batch introduced and immediately due.
    pub fn mark_incomplete_characters_reviewable(&mut self, character_ids: &Vec<i32>, now_minutes:
        u64)
        ensures
            final(self).records@.len() == old(self).records@.len(),
            forall|j: int|
                0 <= j < old(self).records@.len() ==> final(self).records@[j] == (
                if character_ids@.contains(old(self).records@[j].character_id) {
                    reviewable_applied(
                        old(self).records@[j],
                        if now_minutes > 0 {
                            now_minutes - 1
                        } else {
                            0
                        },
                    )
                } else {
                    old(self).records@[j]
                }),
            final(self).initial_unlock_completed == old(self).initial_unlock_completed,
            final(self).last_unlock_date@ == old(self).last_unlock_date@,
            final(self).fail_next_write == old(self).fail_next_write,
    {
        let next = if now_minutes > 0 {
            now_minutes - 1
        } else {
            0
        };
        self.set_reviewable_batch(character_ids, next);
    }

    /// Mark every listed item introduced and reviewable at `next_minute`.
    fn set_reviewable_batch(&mut self, character_ids: &Vec<i32>, next_minute: u64)
        ensures
            final(self).records@.len() == old(self).records@.len(),
            forall|j: int|
                0 <= j < old(self).records@.len() ==> final(self).records@[j] == (
                if character_ids@.contains(old(self).records@[j].character_id) {
                    reviewable_applied(old(self).records@[j], next_minute as int)
                } else {
                    old(self).records@[j]
                }),
            final(self).initial_unlock_completed == old(self).initial_unlock_completed,
            final(self).last_unlock_date@ == old(self).last_unlock_date@,
            final(self).fail_next_write == old(self).fail_next_write,
    {
        let m = character_ids.len();
        let mut k: usize = 0;
        while k < m
            invariant
                m == character_ids@.len(),
                0 <= k <= m,
                self.records@.len() == old(self).records@.len(),
                forall|j: int|
                    0 <= j < old(self).records@.len() ==> self.records@[j] == (
                    if exists|l: int|
                        0 <= l < k && character_ids@[l] == old(self).records@[j].character_id {
                        reviewable_applied(old(self).records@[j], next_minute as int)
                    } else {
                        old(self).records@[j]
                    }),
                self.initial_unlock_completed == old(self).initial_unlock_completed,
                self.last_unlock_date@ == old(self).last_unlock_date@,
                self.fail_next_write == old(self).fail_next_write,
            decreases m - k,
        {
            let id = character_ids[k];
            let ghost pre = self.records@;
            self.set_reviewable_at(id, next_minute);
            proof {
                assert forall|j: int| 0 <= j < old(self).records@.len() implies self.records@[j]
                    == (if exists|l: int|
                    0 <= l < k + 1 && character_ids@[l] == old(self).records@[j].character_id {
                    reviewable_applied(old(self).records@[j], next_minute as int)
                } else {
                    old(self).records@[j]
                }) by {
                    let orig = old(self).records@[j];
                    if pre[j].character_id == id {
                        assert(pre[j].character_id == orig.character_id);
                        assert(character_ids@[k as int] == orig.character_id);
                    } else {
                        if exists|l: int|
                            0 <= l < k + 1 && character_ids@[l] == orig.character_id {
                            let l = choose|l: int|
                                0 <= l < k + 1 && character_ids@[l] == orig.character_id;
                            assert(l < k);
                        }
                    }
                }
            }
            k = k + 1;
        }
    }
}

} // verus!
