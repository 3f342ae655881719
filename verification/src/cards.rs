//! Card selection: which items a learner reviews, self-studies, or
//! browses. Mastered items are excluded from due-card and self-study
//! selection permanently.

use vstd::prelude::*;
use crate::catalog::Catalog;
use crate::progress::ProgressStore;
use crate::score::introduction_score_spec;
use crate::scheduler::score_of;
use crate::sortutil::{sorted_indices, take_lowest, holds_index};
use crate::strutil::str_eq;

verus! {

/// What a review session needs to show one card.
#[derive(Debug, Clone)]
pub struct DueCard {
    pub character_id: i32,
    pub character: String,
    pub pinyin: String,
    pub definition: String,
    pub current_interval_minutes: u64,
    pub times_reviewed: i32,
}

/// Record index `j` is due for review at `now`: introduced, not mastered,
/// review time arrived, and the item exists in the catalog.
pub open spec fn due_record(cat: Catalog, store: ProgressStore, now: int, j: int) -> bool {
    &&& 0 <= j < store.records@.len()
    &&& store.records@[j].introduced
    &&& !store.records@[j].is_mastered
    &&& store.records@[j].next_review_minute matches Some(t) && t <= now
    &&& cat.contains_id(store.records@[j].character_id)
}

/// The review time of record `j` (for a record with one set).
pub open spec fn review_time_of(store: ProgressStore, j: int) -> int {
    match store.records@[j].next_review_minute {
        Some(t) => t as int,
        None => 0,
    }
}

/// The card shown for record `j`, joined with its catalog item.
pub open spec fn due_card_spec(cat: Catalog, store: ProgressStore, j: int) -> DueCard {
    let rec = store.records@[j];
    let item = cat.items@[cat.index_of_id(rec.character_id)];
    DueCard {
        character_id: rec.character_id,
        character: item.character.character,
        pinyin: item.character.mandarin_pinyin,
        definition: item.character.definition,
        current_interval_minutes: rec.current_interval_minutes,
        times_reviewed: rec.times_reviewed,
    }
}

/// Build the card for record index `j`.
fn build_card(cat: &Catalog, store: &ProgressStore, j: usize) -> (card: DueCard)
    requires
        cat.wf(),
        j < store.records@.len(),
        cat.contains_id(store.records@[j as int].character_id),
    ensures
        card == due_card_spec(*cat, *store, j as int),
{
    let rec = &store.records[j];
    let idx = match cat.find_index(rec.character_id) {
        Some(i) => i,
        None => {
            proof {
                assert(false);
            }
            0
        },
    };
    proof {
        let w = cat.index_of_id(rec.character_id);
        assert(cat.items@[w].character.id == rec.character_id);
        assert(w == idx as int);
    }
    let item = &cat.items[idx];
    DueCard {
        character_id: rec.character_id,
        character: item.character.character.clone(),
        pinyin: item.character.mandarin_pinyin.clone(),
        definition: item.character.definition.clone(),
        current_interval_minutes: rec.current_interval_minutes,
        times_reviewed: rec.times_reviewed,
    }
}

/// Every due card, earliest review time first: introduced, unmastered
/// records whose review time has arrived, joined to the catalog. A
/// mastered record is never returned.
#[verifier::loop_isolation(false)]
pub fn get_due_cards(cat: &Catalog, store: &ProgressStore, now_minutes: u64) -> (cards: Vec<
    DueCard,
>)
    requires
        cat.wf(),
        store.wf(),
        now_minutes <= i64::MAX as u64,
    ensures
        exists|sel: Seq<usize>|
            {
                &&& #[trigger] sel.len() == cards@.len()
                &&& (forall|a: int, b: int| 0 <= a < b < sel.len() ==> sel[a] != sel[b])
                &&& (forall|a: int|
                    0 <= a < sel.len() ==> due_record(
                        *cat,
                        *store,
                        now_minutes as int,
                        #[trigger] sel[a] as int,
                    ))
                &&& (forall|a: int, b: int|
                    0 <= a < b < sel.len() ==> review_time_of(*store, #[trigger] sel[a] as int)
                        <= review_time_of(*store, #[trigger] sel[b] as int))
                &&& (forall|j: int|
                    #![trigger due_record(*cat, *store, now_minutes as int, j)]
                    due_record(*cat, *store, now_minutes as int, j) ==> sel.contains(j as usize))
                &&& (forall|a: int|
                    0 <= a < sel.len() ==> cards@[a] == due_card_spec(
                        *cat,
                        *store,
                        #[trigger] sel[a] as int,
                    ))
            },
{
    let ghost pred = |j: int| due_record(*cat, *store, now_minutes as int, j);
    let ghost keyf = |j: int| review_time_of(*store, j);
    let n = store.records.len();
    let mut pairs: Vec<(i64, usize)> = Vec::new();
    let mut j: usize = 0;
    while j < n
        invariant
            0 <= j <= n,
            forall|a: int| 0 <= a < pairs@.len() ==> (#[trigger] pairs@[a]).1 < j,
            forall|a: int, b: int|
                0 <= a < b < pairs@.len() ==> (#[trigger] pairs@[a]).1 != (#[trigger] pairs@[b]).1,
            forall|a: int|
                0 <= a < pairs@.len() ==> pred((#[trigger] pairs@[a]).1 as int) && pairs@[a].0
                    as int == keyf(pairs@[a].1 as int),
            forall|c: int| #![trigger pred(c)] 0 <= c < j && pred(c) ==> holds_index(
                pairs@,
                c as usize,
            ),
        decreases n - j,
    {
        let ghost pre = pairs@;
        let rec = &store.records[j];
        let mut keep = false;
        let mut key: i64 = 0;
        if rec.introduced && !rec.is_mastered {
            match rec.next_review_minute {
                Some(t) => {
                    if t <= now_minutes {
                        if cat.find_index(rec.character_id).is_some() {
                            keep = true;
                            key = t as i64;
                        }
                    }
                },
                None => {},
            }
        }
        if keep {
            pairs.push((key, j));
        }
        proof {
            assert forall|c: int| #![trigger pred(c)] 0 <= c < j + 1 && pred(c)
                implies holds_index(pairs@, c as usize) by {
                if c < j {
                    assert(holds_index(pre, c as usize));
                    let p = choose|p: int| 0 <= p < pre.len() && (#[trigger] pre[p]).1 == c;
                    assert(pairs@[p].1 == c);
                } else {
                    assert(keep);
                    assert(pairs@[pairs@.len() - 1].1 == c);
                }
            }
        }
        j = j + 1;
    }
    let sel = sorted_indices(&pairs, Ghost(keyf));
    proof {
        assert forall|a: int| 0 <= a < sel@.len() implies pred(#[trigger] sel@[a] as int) by {
            assert(holds_index(pairs@, sel@[a]));
            let p = choose|p: int| 0 <= p < pairs@.len() && (#[trigger] pairs@[p]).1 == sel@[a];
        }
        assert forall|c: int|
            #![trigger due_record(*cat, *store, now_minutes as int, c)]
            due_record(*cat, *store, now_minutes as int, c) implies sel@.contains(c as usize) by {
            assert(pred(c));
            assert(holds_index(pairs@, c as usize));
            let p = choose|p: int| 0 <= p < pairs@.len() && (#[trigger] pairs@[p]).1 == c as usize;
            assert(sel@.contains(pairs@[p].1));
        }
        assert forall|a: int, b: int|
            0 <= a < b < sel@.len() implies review_time_of(*store, #[trigger] sel@[a] as int)
            <= review_time_of(*store, #[trigger] sel@[b] as int) by {
            assert(keyf(sel@[a] as int) <= keyf(sel@[b] as int));
        }
    }
    let m = sel.len();
    let mut cards: Vec<DueCard> = Vec::new();
    let mut a: usize = 0;
    while a < m
        invariant
            0 <= a <= m,
            m == sel@.len(),
            cards@.len() == a,
            cat.wf(),
            forall|x: int| 0 <= x < sel@.len() ==> pred(#[trigger] sel@[x] as int),
            forall|x: int|
                0 <= x < a ==> cards@[x] == due_card_spec(*cat, *store, #[trigger] sel@[x] as int),
        decreases m - a,
    {
        let idx = sel[a];
        proof {
            assert(pred(sel@[a as int] as int));
        }
        cards.push(build_card(cat, store, idx));
        a = a + 1;
    }
    proof {
        let ghost s = sel@;
        assert(s.len() == cards@.len());
    }
    cards
}

/// One logged practice attempt.
#[derive(Debug, Clone)]
pub struct PracticeRecord {
    pub character_id: i32,
    pub practice_mode: String,
    pub arrow_tested: String,
    pub user_answer: String,
    pub is_correct: bool,
    pub practiced_at_minute: u64,
}

/// The append-only practice history.
#[derive(Debug)]
pub struct PracticeLog {
    pub entries: Vec<PracticeRecord>,
}

/// When item `id` was last practiced in the given mode (0 when never).
pub open spec fn last_practice_time(entries: Seq<PracticeRecord>, id: i32, mode: Seq<char>) ->
    int
    decreases entries.len(),
{
    if entries.len() == 0 {
        0
    } else {
        let rest = last_practice_time(entries.drop_last(), id, mode);
        let e = entries.last();
        if e.character_id == id && e.practice_mode@ == mode && e.practiced_at_minute as int
            > rest {
            e.practiced_at_minute as int
        } else {
            rest
        }
    }
}

impl PracticeLog {
    pub fn new() -> (r: PracticeLog)
        ensures
            r.entries@.len() == 0,
    {
        PracticeLog { entries: Vec::new() }
    }

    /// Append one practice attempt.
    pub fn record_practice_history(
        &mut self,
        character_id: i32,
        practice_mode: String,
        arrow_tested: String,
        user_answer: String,
        is_correct: bool,
        now_minutes: u64,
    )
        ensures
            final(self).entries@.len() == old(self).entries@.len() + 1,
            forall|e: int|
                0 <= e < old(self).entries@.len() ==> final(self).entries@[e] == old(
                    self,
                ).entries@[e],
            final(self).entries@.last().character_id == character_id,
            final(self).entries@.last().practice_mode@ == practice_mode@,
            final(self).entries@.last().is_correct == is_correct,
            final(self).entries@.last().practiced_at_minute == now_minutes,
    {
        self.entries.push(
            PracticeRecord {
                character_id,
                practice_mode,
                arrow_tested,
                user_answer,
                is_correct,
                practiced_at_minute: now_minutes,
            },
        );
    }

    /// When item `id` was last practiced in `mode`.
    #[verifier::loop_isolation(false)]
    pub fn last_practice_for(&self, id: i32, mode: &str) -> (r: u64)
        ensures
            r as int == last_practice_time(self.entries@, id, mode@),
    {
        let n = self.entries.len();
        let mut best: u64 = 0;
        let mut i: usize = 0;
        while i < n
            invariant
                0 <= i <= n,
                best as int == last_practice_time(self.entries@.take(i as int), id, mode@),
            decreases n - i,
        {
            proof {
                assert(self.entries@.take(i as int + 1).drop_last() =~= self.entries@.take(
                    i as int,
                ));
            }
            let e = &self.entries[i];
            if e.character_id == id && str_eq(e.practice_mode.as_str(), mode) {
                if e.practiced_at_minute > best {
                    best = e.practiced_at_minute;
                }
            }
            i = i + 1;
        }
        proof {
            assert(self.entries@.take(n as int) =~= self.entries@);
        }
        best
    }
}

/// Record index `j` may appear in self-study at `now`: introduced, not
/// mastered, not currently due (its next review lies ahead), and present
/// in the catalog.
pub open spec fn self_study_candidate(cat: Catalog, store: ProgressStore, now: int, j: int) ->
    bool {
    &&& 0 <= j < store.records@.len()
    &&& store.records@[j].introduced
    &&& !store.records@[j].is_mastered
    &&& store.records@[j].next_review_minute matches Some(t) && t > now
    &&& cat.contains_id(store.records@[j].character_id)
}

/// When the record at index `j` was last practiced in self-study mode.
pub open spec fn self_study_recency(store: ProgressStore, log_entries: Seq<PracticeRecord>, j:
    int) -> int {
    last_practice_time(log_entries, store.records@[j].character_id, "self-study"@)
}

/// Cards for self-study: the least recently self-studied candidates first,
/// at most `limit` of them — all of them when fewer exist. Candidates are
/// introduced, unmastered records that are not currently due; mastered
/// items stay excluded.
#[verifier::loop_isolation(false)]
pub fn get_self_study_cards(
    cat: &Catalog,
    store: &ProgressStore,
    log: &PracticeLog,
    now_minutes: u64,
    limit: usize,
) -> (cards: Vec<DueCard>)
    requires
        cat.wf(),
        store.wf(),
        forall|e: int|
            0 <= e < log.entries@.len() ==> (#[trigger] log.entries@[e]).practiced_at_minute
                <= i64::MAX as u64,
    ensures
        cards@.len() <= limit,
        exists|sel: Seq<usize>|
            {
                &&& #[trigger] sel.len() == cards@.len()
                &&& (forall|a: int, b: int| 0 <= a < b < sel.len() ==> sel[a] != sel[b])
                &&& (forall|a: int|
                    0 <= a < sel.len() ==> self_study_candidate(
                        *cat,
                        *store,
                        now_minutes as int,
                        #[trigger] sel[a] as int,
                    ))
                &&& (forall|a: int, b: int|
                    0 <= a < b < sel.len() ==> self_study_recency(
                        *store,
                        log.entries@,
                        #[trigger] sel[a] as int,
                    ) <= self_study_recency(*store, log.entries@, #[trigger] sel[b] as int))
                &&& (sel.len() < limit ==> (forall|j: int|
                    #![trigger self_study_candidate(*cat, *store, now_minutes as int, j)]
                    self_study_candidate(*cat, *store, now_minutes as int, j) ==> sel.contains(
                        j as usize,
                    )))
                &&& (forall|j: int|
                    #![trigger self_study_candidate(*cat, *store, now_minutes as int, j)]
                    self_study_candidate(*cat, *store, now_minutes as int, j) && !sel.contains(
                        j as usize,
                    ) ==> (forall|a: int|
                        0 <= a < sel.len() ==> self_study_recency(
                            *store,
                            log.entries@,
                            #[trigger] sel[a] as int,
                        ) <= self_study_recency(*store, log.entries@, j)))
                &&& (forall|a: int|
                    0 <= a < sel.len() ==> cards@[a] == due_card_spec(
                        *cat,
                        *store,
                        #[trigger] sel[a] as int,
                    ))
            },
{
    let ghost pred = |j: int| self_study_candidate(*cat, *store, now_minutes as int, j);
    let ghost keyf = |j: int| self_study_recency(*store, log.entries@, j);
    let n = store.records.len();
    let mut pairs: Vec<(i64, usize)> = Vec::new();
    let mut j: usize = 0;
    while j < n
        invariant
            0 <= j <= n,
            forall|a: int| 0 <= a < pairs@.len() ==> (#[trigger] pairs@[a]).1 < j,
            forall|a: int, b: int|
                0 <= a < b < pairs@.len() ==> (#[trigger] pairs@[a]).1 != (#[trigger] pairs@[b]).1,
            forall|a: int|
                0 <= a < pairs@.len() ==> pred((#[trigger] pairs@[a]).1 as int) && pairs@[a].0
                    as int == keyf(pairs@[a].1 as int),
            forall|c: int| #![trigger pred(c)] 0 <= c < j && pred(c) ==> holds_index(
                pairs@,
                c as usize,
            ),
        decreases n - j,
    {
        let ghost pre = pairs@;
        let rec = &store.records[j];
        let mut keep = false;
        if rec.introduced && !rec.is_mastered {
            match rec.next_review_minute {
                Some(t) => {
                    if t > now_minutes {
                        if cat.find_index(rec.character_id).is_some() {
                            keep = true;
                        }
                    }
                },
                None => {},
            }
        }
        if keep {
            let key = log.last_practice_for(rec.character_id, "self-study");
            proof {
                lemma_last_practice_bounded(log.entries@, rec.character_id, "self-study"@);
            }
            pairs.push((key as i64, j));
        }
        proof {
            assert forall|c: int| #![trigger pred(c)] 0 <= c < j + 1 && pred(c)
                implies holds_index(pairs@, c as usize) by {
                if c < j {
                    assert(holds_index(pre, c as usize));
                    let p = choose|p: int| 0 <= p < pre.len() && (#[trigger] pre[p]).1 == c;
                    assert(pairs@[p].1 == c);
                } else {
                    assert(keep);
                    assert(pairs@[pairs@.len() - 1].1 == c);
                }
            }
        }
        j = j + 1;
    }
    let sel = take_lowest(&pairs, limit, Ghost(keyf));
    proof {
        assert forall|a: int| 0 <= a < sel@.len() implies pred(#[trigger] sel@[a] as int) by {
            assert(holds_index(pairs@, sel@[a]));
            let p = choose|p: int| 0 <= p < pairs@.len() && (#[trigger] pairs@[p]).1 == sel@[a];
        }
        assert forall|a: int, b: int|
            0 <= a < b < sel@.len() implies self_study_recency(
            *store,
            log.entries@,
            #[trigger] sel@[a] as int,
        ) <= self_study_recency(*store, log.entries@, #[trigger] sel@[b] as int) by {
            assert(keyf(sel@[a] as int) <= keyf(sel@[b] as int));
        }
        if sel@.len() < limit {
            assert forall|c: int|
                #![trigger self_study_candidate(*cat, *store, now_minutes as int, c)]
                self_study_candidate(*cat, *store, now_minutes as int, c) implies sel@.contains(
                c as usize,
            ) by {
                assert(pred(c));
                assert(holds_index(pairs@, c as usize));
                let p = choose|p: int|
                    0 <= p < pairs@.len() && (#[trigger] pairs@[p]).1 == c as usize;
                assert(sel@.contains(pairs@[p].1));
            }
        }
        assert forall|c: int|
            #![trigger self_study_candidate(*cat, *store, now_minutes as int, c)]
            self_study_candidate(*cat, *store, now_minutes as int, c) && !sel@.contains(
                c as usize,
            ) implies (forall|a: int|
            0 <= a < sel@.len() ==> self_study_recency(
                *store,
                log.entries@,
                #[trigger] sel@[a] as int,
            ) <= self_study_recency(*store, log.entries@, c)) by {
            assert(pred(c));
            assert(holds_index(pairs@, c as usize));
            let p = choose|p: int| 0 <= p < pairs@.len() && (#[trigger] pairs@[p]).1 == c as usize;
            assert(!sel@.contains(pairs@[p].1));
            assert forall|a: int|
                0 <= a < sel@.len() implies self_study_recency(
                *store,
                log.entries@,
                #[trigger] sel@[a] as int,
            ) <= self_study_recency(*store, log.entries@, c) by {
                assert(keyf(sel@[a] as int) <= keyf(pairs@[p].1 as int));
            }
        }
    }
    let m = sel.len();
    let mut cards: Vec<DueCard> = Vec::new();
    let mut a: usize = 0;
    while a < m
        invariant
            0 <= a <= m,
            m == sel@.len() <= limit,
            cards@.len() == a,
            cat.wf(),
            forall|x: int| 0 <= x < sel@.len() ==> pred(#[trigger] sel@[x] as int),
            forall|x: int|
                0 <= x < a ==> cards@[x] == due_card_spec(*cat, *store, #[trigger] sel@[x] as int),
        decreases m - a,
    {
        let idx = sel[a];
        proof {
            assert(pred(sel@[a as int] as int));
        }
        cards.push(build_card(cat, store, idx));
        a = a + 1;
    }
    cards
}

/// A last-practice time never exceeds the largest logged time.
proof fn lemma_last_practice_bounded(entries: Seq<PracticeRecord>, id: i32, mode: Seq<char>)
    requires
        forall|e: int|
            0 <= e < entries.len() ==> (#[trigger] entries[e]).practiced_at_minute <= i64::MAX
                as u64,
    ensures
        last_practice_time(entries, id, mode) <= i64::MAX as int,
    decreases entries.len(),
{
    if entries.len() > 0 {
        lemma_last_practice_bounded(entries.drop_last(), id, mode);
    }
}

/// The id is tracked in the store and present in the catalog.
pub open spec fn listed_id(cat: Catalog, store: ProgressStore, id: i32) -> bool {
    store.spec_contains(id) && cat.contains_id(id)
}

/// The cards for an explicitly chosen list of items, in list order: one
/// card for exactly each listed id that is tracked and in the catalog; the
/// other ids are skipped.
#[verifier::loop_isolation(false)]
pub fn get_characters_for_initial_study(cat: &Catalog, store: &ProgressStore, character_ids:
    &Vec<i32>) -> (cards: Vec<DueCard>)
    requires
        cat.wf(),
        store.wf(),
    ensures
        cards@.len() <= character_ids@.len(),
        exists|kept: Seq<int>|
            {
                &&& #[trigger] kept.len() == cards@.len()
                &&& (forall|x: int| 0 <= x < kept.len() ==> 0 <= #[trigger] kept[x]
                    < character_ids@.len())
                &&& (forall|x: int, y: int| 0 <= x < y < kept.len() ==> kept[x] < kept[y])
                &&& (forall|x: int|
                    0 <= x < kept.len() ==> listed_id(
                        *cat,
                        *store,
                        character_ids@[#[trigger] kept[x]],
                    ))
                &&& (forall|k: int|
                    #![trigger character_ids@[k]]
                    0 <= k < character_ids@.len() && listed_id(*cat, *store, character_ids@[k])
                        ==> kept.contains(k))
                &&& (forall|x: int|
                    0 <= x < kept.len() ==> cards@[x] == due_card_spec(
                        *cat,
                        *store,
                        store.index_of(character_ids@[#[trigger] kept[x]]),
                    ))
            },
{
    let n = character_ids.len();
    let mut cards: Vec<DueCard> = Vec::new();
    let ghost mut kept: Seq<int> = Seq::empty();
    let mut i: usize = 0;
    while i < n
        invariant
            0 <= i <= n,
            cat.wf(),
            store.wf(),
            kept.len() == cards@.len(),
            kept.len() <= i,
            forall|x: int| 0 <= x < kept.len() ==> 0 <= #[trigger] kept[x] < i,
            forall|x: int, y: int| 0 <= x < y < kept.len() ==> kept[x] < kept[y],
            forall|x: int|
                0 <= x < kept.len() ==> listed_id(*cat, *store, character_ids@[#[trigger] kept[x]]),
            forall|k: int|
                #![trigger character_ids@[k]]
                0 <= k < i && listed_id(*cat, *store, character_ids@[k]) ==> kept.contains(k),
            forall|x: int|
                0 <= x < kept.len() ==> cards@[x] == due_card_spec(
                    *cat,
                    *store,
                    store.index_of(character_ids@[#[trigger] kept[x]]),
                ),
        decreases n - i,
    {
        let ghost pre_kept = kept;
        let id = character_ids[i];
        match store.find_index(id) {
            Some(j) => {
                if cat.find_index(id).is_some() {
                    let ghost jj = j as int;
                    cards.push(build_card(cat, store, j));
                    proof {
                        kept = kept.push(i as int);
                        assert(store.records@[jj].character_id == id);
                        assert(store.index_of(id) == jj) by {
                            let w = store.index_of(id);
                            assert(store.records@[w].character_id == id);
                        }
                        assert(listed_id(*cat, *store, id));
                        assert(cards@[cards@.len() - 1] == due_card_spec(*cat, *store, jj));
                    }
                } else {
                    proof {
                        assert(!listed_id(*cat, *store, id));
                    }
                }
            },
            None => {
                proof {
                    assert(!listed_id(*cat, *store, id));
                }
            },
        }
        proof {
            assert forall|k: int|
                #![trigger character_ids@[k]]
                0 <= k < i + 1 && listed_id(*cat, *store, character_ids@[k])
                implies kept.contains(k) by {
                if k < i {
                    assert(pre_kept.contains(k));
                    let x = choose|x: int| 0 <= x < pre_kept.len() && pre_kept[x] == k;
                    assert(kept[x] == k);
                } else {
                    assert(kept[kept.len() - 1] == k);
                }
            }
        }
        i = i + 1;
    }
    cards
}

/// The whole catalog in introduction order: every item, sorted ascending
/// by introduction score, then the page `[offset, offset + limit)`.
#[verifier::loop_isolation(false)]
pub fn get_browse_items_introduction_order(cat: &Catalog, offset: usize, limit: usize) -> (page:
    Vec<usize>)
    requires
        cat.wf(),
        forall|c: int|
            0 <= c < cat.items@.len() ==> introduction_score_spec(
                *cat,
                #[trigger] cat.items@[c],
            ) <= i64::MAX as int,
    ensures
        exists|full: Seq<usize>|
            {
                &&& #[trigger] full.len() == cat.items@.len()
                &&& (forall|a: int, b: int| 0 <= a < b < full.len() ==> full[a] != full[b])
                &&& (forall|a: int, b: int|
                    0 <= a < b < full.len() ==> score_of(*cat, #[trigger] full[a] as int)
                        <= score_of(*cat, #[trigger] full[b] as int))
                &&& (forall|a: int| 0 <= a < full.len() ==> #[trigger] full[a] < cat.items@.len())
                &&& page@ == full.subrange(
                    if offset as int <= full.len() {
                        offset as int
                    } else {
                        full.len() as int
                    },
                    if offset as int + limit as int <= full.len() {
                        offset as int + limit as int
                    } else {
                        full.len() as int
                    },
                )
            },
{
    let ghost keyf = |c: int| score_of(*cat, c);
    let n = cat.items.len();
    let mut pairs: Vec<(i64, usize)> = Vec::new();
    let mut i: usize = 0;
    while i < n
        invariant
            0 <= i <= n,
            pairs@.len() == i,
            forall|a: int| 0 <= a < pairs@.len() ==> (#[trigger] pairs@[a]).1 == a,
            forall|a: int|
                0 <= a < pairs@.len() ==> (#[trigger] pairs@[a]).0 as int == keyf(
                    pairs@[a].1 as int,
                ),
        decreases n - i,
    {
        let score = crate::score::calculate_introduction_score(cat, &cat.items[i]);
        pairs.push((score, i));
        i = i + 1;
    }
    let full = sorted_indices(&pairs, Ghost(keyf));
    proof {
        assert forall|a: int| 0 <= a < full@.len() implies #[trigger] full@[a]
            < cat.items@.len() by {
            assert(holds_index(pairs@, full@[a]));
            let p = choose|p: int| 0 <= p < pairs@.len() && (#[trigger] pairs@[p]).1 == full@[a];
        }
        assert forall|a: int, b: int|
            0 <= a < b < full@.len() implies score_of(*cat, #[trigger] full@[a] as int)
            <= score_of(*cat, #[trigger] full@[b] as int) by {
            assert(keyf(full@[a] as int) <= keyf(full@[b] as int));
        }
    }
    let start = if offset <= full.len() {
        offset
    } else {
        full.len()
    };
    let stop = if limit <= full.len() - start {
        start + limit
    } else {
        full.len()
    };
    let mut page: Vec<usize> = Vec::new();
    let mut a = start;
    while a < stop
        invariant
            start <= a <= stop <= full@.len(),
            page@.len() == a - start,
            forall|x: int| 0 <= x < page@.len() ==> page@[x] == (#[trigger] full@[start + x]),
        decreases stop - a,
    {
        page.push(full[a]);
        a = a + 1;
    }
    proof {
        assert forall|x: int|
            0 <= x < page@.len() implies page@[x] == full@.subrange(start as int, stop as int)[x]
            by {
            assert(page@[x] == full@[start + x]);
        }
        assert(page@ =~= full@.subrange(start as int, stop as int));
    }
    page
}

} // verus!
