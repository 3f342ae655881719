//! Study-session bookkeeping and learner-facing statistics: the session
//! log, the day streak, the dashboard numbers, the review calendar, and a
//! diagnostic snapshot of the store.

use vstd::prelude::*;
use crate::progress::{ProgressStore, ProgressRecord, count_ready, count_introduced};
use crate::catalog::Catalog;
use crate::timefmt::{format_datetime_minutes, format_datetime_spec, MINUTES_PER_DAY};

verus! {

/// One study session, minute-stamped.
#[derive(Debug, Clone)]
pub struct StudySession {
    pub id: i32,
    pub mode: String,
    pub started_at_minute: u64,
    pub ended_at_minute: Option<u64>,
    pub cards_studied: i32,
    pub cards_correct: i32,
    pub cards_incorrect: i32,
    pub duration_seconds: Option<i64>,
}

impl StudySession {
    /// A field-wise copy whose contract says the copy equals the original.
    pub fn duplicate(&self) -> (r: StudySession)
        ensures
            r == *self,
    {
        StudySession {
            id: self.id,
            mode: self.mode.clone(),
            started_at_minute: self.started_at_minute,
            ended_at_minute: self.ended_at_minute,
            cards_studied: self.cards_studied,
            cards_correct: self.cards_correct,
            cards_incorrect: self.cards_incorrect,
            duration_seconds: self.duration_seconds,
        }
    }
}

/// The append-only session log.
#[derive(Debug)]
pub struct SessionLog {
    pub sessions: Vec<StudySession>,
    pub next_id: i32,
}

/// A session as `end_study_session` closes it.
pub open spec fn session_closed(
    s: StudySession,
    cards_studied: i32,
    cards_correct: i32,
    cards_incorrect: i32,
    now: int,
) -> StudySession {
    StudySession {
        ended_at_minute: Some(now as u64),
        cards_studied,
        cards_correct,
        cards_incorrect,
        duration_seconds: Some(((now - s.started_at_minute) * 60) as i64),
        ..s
    }
}

impl SessionLog {
    pub fn new() -> (r: SessionLog)
        ensures
            r.sessions@.len() == 0,
            r.next_id == 1,
    {
        SessionLog { sessions: Vec::new(), next_id: 1 }
    }

    /// Open a new session and return its id.
    pub fn start_study_session(&mut self, mode: String, now_minutes: u64) -> (id: i32)
        requires
            old(self).next_id < i32::MAX,
        ensures
            id == old(self).next_id,
            final(self).next_id == old(self).next_id + 1,
            final(self).sessions@.len() == old(self).sessions@.len() + 1,
            forall|e: int|
                0 <= e < old(self).sessions@.len() ==> final(self).sessions@[e] == old(
                    self,
                ).sessions@[e],
            final(self).sessions@.last() == (StudySession {
                id,
                mode,
                started_at_minute: now_minutes,
                ended_at_minute: None,
                cards_studied: 0,
                cards_correct: 0,
                cards_incorrect: 0,
                duration_seconds: None,
            }),
    {
        let id = self.next_id;
        self.next_id = self.next_id + 1;
        self.sessions.push(
            StudySession {
                id,
                mode,
                started_at_minute: now_minutes,
                ended_at_minute: None,
                cards_studied: 0,
                cards_correct: 0,
                cards_incorrect: 0,
                duration_seconds: None,
            },
        );
        id
    }

    /// Close a session with its final statistics; an unknown id is a
    /// silent no-op, as the underlying row update would be.
    pub fn end_study_session(
        &mut self,
        session_id: i32,
        cards_studied: i32,
        cards_correct: i32,
        cards_incorrect: i32,
        now_minutes: u64,
    )
        requires
            forall|e: int|
                0 <= e < old(self).sessions@.len() ==> (#[trigger] old(
                    self,
                ).sessions@[e]).started_at_minute <= now_minutes,
            (now_minutes as int) * 60 <= i64::MAX as int,
        ensures
            final(self).sessions@.len() == old(self).sessions@.len(),
            final(self).next_id == old(self).next_id,
            forall|e: int|
                0 <= e < old(self).sessions@.len() ==> final(self).sessions@[e] == (
                if old(self).sessions@[e].id == session_id {
                    session_closed(
                        old(self).sessions@[e],
                        cards_studied,
                        cards_correct,
                        cards_incorrect,
                        now_minutes as int,
                    )
                } else {
                    old(self).sessions@[e]
                }),
    {
        let n = self.sessions.len();
        let mut i: usize = 0;
        while i < n
            invariant
                0 <= i <= n,
                n == self.sessions@.len(),
                self.next_id == old(self).next_id,
                (now_minutes as int) * 60 <= i64::MAX as int,
                forall|e: int|
                    0 <= e < n ==> (#[trigger] old(self).sessions@[e]).started_at_minute
                        <= now_minutes,
                forall|e: int| i <= e < n ==> self.sessions@[e] == old(self).sessions@[e],
                forall|e: int|
                    0 <= e < i ==> self.sessions@[e] == (
                    if old(self).sessions@[e].id == session_id {
                        session_closed(
                            old(self).sessions@[e],
                            cards_studied,
                            cards_correct,
                            cards_incorrect,
                            now_minutes as int,
                        )
                    } else {
                        old(self).sessions@[e]
                    }),
            decreases n - i,
        {
            if self.sessions[i].id == session_id {
                let s = &self.sessions[i];
                let started = s.started_at_minute;
                let duration: i64 = ((now_minutes - started) * 60) as i64;
                let updated = StudySession {
                    id: s.id,
                    mode: s.mode.clone(),
                    started_at_minute: s.started_at_minute,
                    ended_at_minute: Some(now_minutes),
                    cards_studied,
                    cards_correct,
                    cards_incorrect,
                    duration_seconds: Some(duration),
                };
                self.sessions[i] = updated;
            }
            i = i + 1;
        }
    }

    /// The most recent sessions, newest first (by insertion order), at most
    /// `limit` of them.
    #[verifier::loop_isolation(false)]
    pub fn get_recent_sessions(&self, limit: usize) -> (r: Vec<StudySession>)
        ensures
            r@.len() == if limit <= self.sessions@.len() {
                limit as int
            } else {
                self.sessions@.len() as int
            },
            forall|x: int|
                0 <= x < r@.len() ==> r@[x] == self.sessions@[self.sessions@.len() - 1 - x],
    {
        let n = self.sessions.len();
        let take = if limit <= n {
            limit
        } else {
            n
        };
        let mut r: Vec<StudySession> = Vec::new();
        let mut x: usize = 0;
        while x < take
            invariant
                0 <= x <= take <= n,
                n == self.sessions@.len(),
                r@.len() == x,
                forall|e: int|
                    0 <= e < x ==> r@[e] == self.sessions@[self.sessions@.len() - 1 - e],
            decreases take - x,
        {
            r.push(self.sessions[n - 1 - x].duplicate());
            x = x + 1;
        }
        r
    }
}

/// Consecutive-day run: how many leading entries of `days` count down one
/// by one from `expected`.
pub open spec fn streak_run_spec(days: Seq<u64>, expected: int) -> int
    decreases days.len(),
{
    if days.len() == 0 {
        0
    } else if days[0] as int == expected {
        1 + streak_run_spec(days.drop_first(), expected - 1)
    } else {
        0
    }
}

/// The study streak over distinct study-day numbers sorted newest first:
/// 0 when the most recent study day lies before yesterday, else the length
/// of the consecutive run starting at the most recent day.
pub open spec fn study_streak_spec(days: Seq<u64>, today: int) -> int {
    if days.len() == 0 {
        0
    } else if (days[0] as int) + 1 < today {
        0
    } else {
        1 + streak_run_spec(days.drop_first(), days[0] as int - 1)
    }
}

/// The consecutive run of `days[i..]` counting down from `expected`.
fn streak_run(days: &Vec<u64>, i: usize, expected: u64) -> (r: usize)
    requires
        i <= days@.len(),
    ensures
        r as int == streak_run_spec(days@.skip(i as int), expected as int),
        r <= days@.len() - i,
    decreases days@.len() - i,
{
    proof {
        if i < days@.len() {
            assert(days@.skip(i as int).drop_first() =~= days@.skip(i as int + 1));
            assert(days@.skip(i as int)[0] == days@[i as int]);
        }
    }
    if i >= days.len() {
        return 0;
    }
    if days[i] == expected {
        if expected == 0 {
            proof {
                assert(streak_run_spec(days@.skip(i as int + 1), -1) == 0) by {
                    if days@.skip(i as int + 1).len() > 0 {
                        assert(days@.skip(i as int + 1)[0] as int >= 0);
                    }
                }
            }
            1
        } else {
            let rest = streak_run(days, i + 1, expected - 1);
            1 + rest
        }
    } else {
        0
    }
}

/// Calculate the study streak — the number of consecutive days with a
/// study session ending today or yesterday — from the distinct study-day
/// numbers, newest first.
pub fn calculate_study_streak(days: &Vec<u64>, today_day: u64) -> (r: usize)
    ensures
        r as int == study_streak_spec(days@, today_day as int),
{
    if days.len() == 0 {
        return 0;
    }
    let most_recent = days[0];
    if today_day > most_recent && today_day - most_recent > 1 {
        return 0;
    }
    proof {
        assert(days@.skip(1) =~= days@.drop_first());
    }
    if most_recent == 0 {
        proof {
            assert(streak_run_spec(days@.drop_first(), -1) == 0);
        }
        1
    } else {
        let rest = streak_run(days, 1, most_recent - 1);
        1 + rest
    }
}

/// The dashboard numbers.
#[derive(Debug, Clone)]
pub struct DashboardStats {
    pub total_characters_learned: usize,
    pub characters_in_srs: usize,
    pub cards_due_today: usize,
    pub study_streak_days: usize,
}

/// Number of introduced records whose review time has arrived (a mastered
/// record has none).
pub open spec fn count_due(s: Seq<ProgressRecord>, now: int) -> int
    decreases s.len(),
{
    if s.len() == 0 {
        0
    } else {
        count_due(s.drop_last(), now) + if s.last().introduced && (match s.last(
        ).next_review_minute {
            Some(t) => t as int <= now,
            None => false,
        }) {
            1int
        } else {
            0int
        }
    }
}

/// Count the cards due at `now`.
#[verifier::loop_isolation(false)]
pub fn count_due_cards(store: &ProgressStore, now_minutes: u64) -> (r: usize)
    ensures
        r as int == count_due(store.records@, now_minutes as int),
{
    let n = store.records.len();
    let mut i: usize = 0;
    let mut acc: usize = 0;
    while i < n
        invariant
            0 <= i <= n,
            acc as int == count_due(store.records@.take(i as int), now_minutes as int),
            acc <= i,
        decreases n - i,
    {
        proof {
            assert(store.records@.take(i as int + 1).drop_last() =~= store.records@.take(
                i as int,
            ));
        }
        let rec = &store.records[i];
        let mut due = false;
        if rec.introduced {
            match rec.next_review_minute {
                Some(t) => {
                    if t <= now_minutes {
                        due = true;
                    }
                },
                None => {},
            }
        }
        if due {
            acc = acc + 1;
        }
        i = i + 1;
    }
    proof {
        assert(store.records@.take(n as int) =~= store.records@);
    }
    acc
}

/// The dashboard: introduced count, tracked count, due count, and the
/// caller-computed day streak.
pub fn get_dashboard_stats(store: &ProgressStore, now_minutes: u64, study_streak_days: usize) -> (
    r: DashboardStats)
    ensures
        r.total_characters_learned as int == count_introduced(store.records@),
        r.characters_in_srs == store.records@.len(),
        r.cards_due_today as int == count_due(store.records@, now_minutes as int),
        r.study_streak_days == study_streak_days,
{
    DashboardStats {
        total_characters_learned: store.get_introduced_count(),
        characters_in_srs: store.records.len(),
        cards_due_today: count_due_cards(store, now_minutes),
        study_streak_days,
    }
}

/// A diagnostic snapshot of the store.
#[derive(Debug, Clone)]
pub struct DatabaseDebugInfo {
    pub total_characters: usize,
    pub characters_in_progress: usize,
    pub ready_to_learn: usize,
    pub introduced: usize,
    pub initial_unlock_completed: String,
    pub last_unlock_date: String,
}

/// Number of single-character (non-word) catalog items.
pub open spec fn count_chars(items: Seq<crate::catalog::CatalogItem>) -> int
    decreases items.len(),
{
    if items.len() == 0 {
        0
    } else {
        count_chars(items.drop_last()) + if !items.last().character.is_word {
            1int
        } else {
            0int
        }
    }
}

/// Snapshot the store for diagnostics.
#[verifier::loop_isolation(false)]
pub fn get_database_debug_info(cat: &Catalog, store: &ProgressStore) -> (r: DatabaseDebugInfo)
    ensures
        r.total_characters as int == count_chars(cat.items@),
        r.characters_in_progress == store.records@.len(),
        r.ready_to_learn as int == count_ready(store.records@),
        r.introduced as int == count_introduced(store.records@),
        store.initial_unlock_completed ==> r.initial_unlock_completed@ == "true"@,
        !store.initial_unlock_completed ==> r.initial_unlock_completed@ == "false"@,
        r.last_unlock_date@ == store.last_unlock_date@,
{
    let n = cat.items.len();
    let mut i: usize = 0;
    let mut chars: usize = 0;
    while i < n
        invariant
            0 <= i <= n,
            chars as int == count_chars(cat.items@.take(i as int)),
            chars <= i,
        decreases n - i,
    {
        proof {
            assert(cat.items@.take(i as int + 1).drop_last() =~= cat.items@.take(i as int));
        }
        if !cat.items[i].character.is_word {
            chars = chars + 1;
        }
        i = i + 1;
    }
    proof {
        assert(cat.items@.take(n as int) =~= cat.items@);
    }
    let flag = if store.initial_unlock_completed {
        let mut t = String::new();
        t.append("true");
        t
    } else {
        let mut t = String::new();
        t.append("false");
        t
    };
    DatabaseDebugInfo {
        total_characters: chars,
        characters_in_progress: store.records.len(),
        ready_to_learn: store.get_ready_to_learn_count(),
        introduced: store.get_introduced_count(),
        initial_unlock_completed: flag,
        last_unlock_date: store.last_unlock_date.clone(),
    }
}

/// One day of the review calendar.
#[derive(Debug, Clone)]
pub struct ReviewCalendarEntry {
    pub date: String,
    pub cards_due: usize,
    pub earliest_review_time: String,
}

/// Number of introduced records whose review falls after `now` on day
/// `day` (minutes divided by the day length).
pub open spec fn count_due_on_day(s: Seq<ProgressRecord>, now: int, day: int) -> int
    decreases s.len(),
{
    if s.len() == 0 {
        0
    } else {
        count_due_on_day(s.drop_last(), now, day) + if s.last().introduced && (match s.last(
        ).next_review_minute {
            Some(t) => t as int > now && t as int / (MINUTES_PER_DAY as int) == day,
            None => false,
        }) {
            1int
        } else {
            0int
        }
    }
}

/// The earliest review time pending on `day` (after `now`); the largest
/// `u64` when nothing is pending that day.
pub open spec fn earliest_due_on_day(s: Seq<ProgressRecord>, now: int, day: int) -> int
    decreases s.len(),
{
    if s.len() == 0 {
        u64::MAX as int
    } else {
        let rest = earliest_due_on_day(s.drop_last(), now, day);
        let hit = s.last().introduced && (match s.last().next_review_minute {
            Some(t) => t as int > now && t as int / (MINUTES_PER_DAY as int) == day,
            None => false,
        });
        if hit && (match s.last().next_review_minute {
            Some(t) => (t as int) < rest,
            None => false,
        }) {
            match s.last().next_review_minute {
                Some(t) => t as int,
                None => rest,
            }
        } else {
            rest
        }
    }
}

/// The upcoming review days within `days` days of `now`, ascending: one
/// entry for exactly each day in the window with pending reviews, carrying
/// the date, how many cards fall due, and the earliest review time that
/// day.
#[verifier::loop_isolation(false)]
#[verifier::rlimit(60)]
pub fn get_review_calendar(store: &ProgressStore, now_minutes: u64, days: u64) -> (r: Vec<
    ReviewCalendarEntry,
>)
    requires
        (now_minutes as int / (MINUTES_PER_DAY as int) + days as int + 1) * (
        MINUTES_PER_DAY as int) <= u64::MAX as int,
    ensures
        exists|ds: Seq<int>|
            {
                &&& #[trigger] ds.len() == r@.len()
                &&& (forall|x: int|
                    0 <= x < ds.len() ==> now_minutes as int / (MINUTES_PER_DAY as int)
                        <= #[trigger] ds[x] <= now_minutes as int / (MINUTES_PER_DAY as int)
                        + days as int)
                &&& (forall|x: int, y: int| 0 <= x < y < ds.len() ==> ds[x] < ds[y])
                &&& (forall|x: int|
                    0 <= x < ds.len() ==> count_due_on_day(
                        store.records@,
                        now_minutes as int,
                        #[trigger] ds[x],
                    ) > 0)
                &&& (forall|day: int|
                    #![trigger count_due_on_day(store.records@, now_minutes as int, day)]
                    now_minutes as int / (MINUTES_PER_DAY as int) <= day <= now_minutes as int
                        / (MINUTES_PER_DAY as int) + days as int && count_due_on_day(
                        store.records@,
                        now_minutes as int,
                        day,
                    ) > 0 ==> ds.contains(day))
                &&& (forall|x: int|
                    0 <= x < ds.len() ==> (#[trigger] r@[x]).cards_due as int == count_due_on_day(
                        store.records@,
                        now_minutes as int,
                        ds[x],
                    ))
                &&& (forall|x: int|
                    0 <= x < ds.len() ==> (#[trigger] r@[x]).date@ == format_datetime_spec(
                        ds[x] * (MINUTES_PER_DAY as int),
                    ).subrange(0, 10))
                &&& (forall|x: int|
                    0 <= x < ds.len() ==> (#[trigger] r@[x]).earliest_review_time@
                        == format_datetime_spec(
                        earliest_due_on_day(store.records@, now_minutes as int, ds[x]),
                    ))
            },
{
    let today = now_minutes / MINUTES_PER_DAY;
    let mut r: Vec<ReviewCalendarEntry> = Vec::new();
    let ghost mut ds: Seq<int> = Seq::empty();
    let mut offset: u64 = 0;
    while offset <= days
        invariant
            0 <= offset <= days + 1,
            today == now_minutes / MINUTES_PER_DAY,
            ds.len() == r@.len(),
            forall|x: int|
                0 <= x < ds.len() ==> today as int <= #[trigger] ds[x] < today as int
                    + offset as int,
            forall|x: int, y: int| 0 <= x < y < ds.len() ==> ds[x] < ds[y],
            forall|x: int|
                0 <= x < ds.len() ==> count_due_on_day(
                    store.records@,
                    now_minutes as int,
                    #[trigger] ds[x],
                ) > 0,
            forall|day: int|
                #![trigger count_due_on_day(store.records@, now_minutes as int, day)]
                today as int <= day < today as int + offset as int && count_due_on_day(
                    store.records@,
                    now_minutes as int,
                    day,
                ) > 0 ==> ds.contains(day),
            forall|x: int|
                0 <= x < ds.len() ==> (#[trigger] r@[x]).cards_due as int == count_due_on_day(
                    store.records@,
                    now_minutes as int,
                    ds[x],
                ),
            forall|x: int|
                0 <= x < ds.len() ==> (#[trigger] r@[x]).date@ == format_datetime_spec(
                    ds[x] * (MINUTES_PER_DAY as int),
                ).subrange(0, 10),
            forall|x: int|
                0 <= x < ds.len() ==> (#[trigger] r@[x]).earliest_review_time@
                    == format_datetime_spec(
                    earliest_due_on_day(store.records@, now_minutes as int, ds[x]),
                ),
        decreases days + 1 - offset,
    {
        let day = today + offset;
        let (count, earliest) = day_summary(store, now_minutes, day);
        let ghost pre_ds = ds;
        if count > 0 {
            let full = format_datetime_minutes(day * MINUTES_PER_DAY);
            let date = date_prefix(&full);
            let earliest_review_time = format_datetime_minutes(earliest);
            let ghost dd = day as int;
            r.push(ReviewCalendarEntry { date, cards_due: count, earliest_review_time });
            proof {
                ds = ds.push(dd);
                assert(full@.len() == 19);
                assert((r@[r@.len() - 1]).cards_due as int == count_due_on_day(
                    store.records@,
                    now_minutes as int,
                    dd,
                ));
                assert((r@[r@.len() - 1]).date@ == format_datetime_spec(
                    dd * (MINUTES_PER_DAY as int),
                ).subrange(0, 10));
                assert((r@[r@.len() - 1]).earliest_review_time@ == format_datetime_spec(
                    earliest_due_on_day(store.records@, now_minutes as int, dd),
                ));
            }
        }
        proof {
            assert forall|day2: int|
                #![trigger count_due_on_day(store.records@, now_minutes as int, day2)]
                today as int <= day2 < today as int + offset as int + 1 && count_due_on_day(
                    store.records@,
                    now_minutes as int,
                    day2,
                ) > 0 implies ds.contains(day2) by {
                if day2 < today as int + offset as int {
                    assert(pre_ds.contains(day2));
                    let x = choose|x: int| 0 <= x < pre_ds.len() && pre_ds[x] == day2;
                    assert(ds[x] == day2);
                } else {
                    assert(ds[ds.len() - 1] == day2);
                }
            }
        }
        offset = offset + 1;
    }
    r
}

/// The `YYYY-MM-DD` head of a full timestamp (the whole string when it is
/// shorter than ten characters).
fn date_prefix(full: &String) -> (r: String)
    ensures
        full@.len() >= 10 ==> r@ == full@.subrange(0, 10),
        full@.len() < 10 ==> r@ == full@,
{
    let n = full.as_str().unicode_len();
    let upto = if n < 10 {
        n
    } else {
        10
    };
    let piece = full.as_str().substring_char(0, upto);
    let mut out = String::new();
    out.append(piece);
    proof {
        if full@.len() < 10 {
            assert(full@.subrange(0, full@.len() as int) =~= full@);
        }
    }
    out
}

/// Count and earliest review time of the reviews pending on `day`.
#[verifier::loop_isolation(false)]
fn day_summary(store: &ProgressStore, now_minutes: u64, day: u64) -> (r: (usize, u64))
    ensures
        r.0 as int == count_due_on_day(store.records@, now_minutes as int, day as int),
        r.1 as int == earliest_due_on_day(store.records@, now_minutes as int, day as int),
{
    let n = store.records.len();
    let mut i: usize = 0;
    let mut acc: usize = 0;
    let mut earliest: u64 = u64::MAX;
    while i < n
        invariant
            0 <= i <= n,
            acc as int == count_due_on_day(
                store.records@.take(i as int),
                now_minutes as int,
                day as int,
            ),
            acc <= i,
            earliest as int == earliest_due_on_day(
                store.records@.take(i as int),
                now_minutes as int,
                day as int,
            ),
        decreases n - i,
    {
        proof {
            assert(store.records@.take(i as int + 1).drop_last() =~= store.records@.take(
                i as int,
            ));
        }
        let rec = &store.records[i];
        let mut hit = false;
        let mut t0: u64 = 0;
        if rec.introduced {
            match rec.next_review_minute {
                Some(t) => {
                    if t > now_minutes && t / MINUTES_PER_DAY == day {
                        hit = true;
                        t0 = t;
                    }
                },
                None => {},
            }
        }
        if hit {
            acc = acc + 1;
            if t0 < earliest {
                earliest = t0;
            }
        }
        i = i + 1;
    }
    proof {
        assert(store.records@.take(n as int) =~= store.records@);
    }
    (acc, earliest)
}

} // verus!
