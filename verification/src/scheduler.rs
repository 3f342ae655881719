//! The unlock scheduler: the dependency-ordered, cooldown-gated release of
//! new items.
//!
//! A learner's store moves through four states: uninitialized (no records),
//! awaiting drain (ready queue non-empty), cooldown active (queue empty,
//! timer running) and ready to release (queue empty, cooldown elapsed).
//! `check_and_unlock_characters` performs at most one transition per call.

use vstd::prelude::*;
use crate::catalog::{Catalog, CatalogItem, Character};
use crate::progress::{ProgressStore, ProgressRecord, StoreError, count_ready, fresh_record_spec,
    new_record, same_store_data, lemma_count_ready_append};
use crate::score::{introduction_score_spec, calculate_introduction_score};
use crate::sortutil::{take_lowest, holds_index};
use crate::timefmt::{parse_datetime_spec, parse_datetime_minutes, format_datetime_spec,
    format_datetime_minutes};

verus! {

/// How many single characters the one-time initial unlock releases.
pub const INITIAL_UNLOCK_COUNT: usize = 100;
/// How many items a later batch release unlocks.
pub const UNLOCK_BATCH_SIZE: usize = 10;
/// The wait between automatic batch releases.
pub const COOLDOWN_MINUTES: u64 = 2880;
/// The same cooldown in whole hours.
pub const COOLDOWN_HOURS: u64 = 48;

/// Catalog index `c` is a single character with no progress record yet.
pub open spec fn untracked_char(cat: Catalog, store: ProgressStore, c: int) -> bool {
    &&& 0 <= c < cat.items@.len()
    &&& !cat.items@[c].character.is_word
    &&& !store.spec_contains(cat.items@[c].character.id)
}

/// Catalog index `c` is an untracked word whose every component character is
/// already introduced (and which has at least one known component).
pub open spec fn eligible_word(cat: Catalog, store: ProgressStore, c: int) -> bool {
    &&& 0 <= c < cat.items@.len()
    &&& cat.items@[c].character.is_word
    &&& !store.spec_contains(cat.items@[c].character.id)
    &&& cat.items@[c].component_ids@.len() > 0
    &&& forall|k: int|
        0 <= k < cat.items@[c].component_ids@.len() ==> store.spec_introduced(
            #[trigger] cat.items@[c].component_ids@[k],
        )
}

/// Catalog index `c` may appear in a batch release.
pub open spec fn eligible_candidate(cat: Catalog, store: ProgressStore, c: int) -> bool {
    untracked_char(cat, store, c) || eligible_word(cat, store, c)
}

/// Catalog index `c` is an item sitting in the ready-to-learn queue.
pub open spec fn ready_item(cat: Catalog, store: ProgressStore, c: int) -> bool {
    &&& 0 <= c < cat.items@.len()
    &&& store.spec_ready(cat.items@[c].character.id)
}

/// The frequency rank of catalog index `c`.
pub open spec fn rank_of(cat: Catalog, c: int) -> int {
    cat.items@[c].character.frequency_rank as int
}

/// The introduction score of catalog index `c`.
pub open spec fn score_of(cat: Catalog, c: int) -> int {
    introduction_score_spec(cat, cat.items@[c])
}

/// `sel` holds the (at most) `limit` lowest-ranked untracked single
/// characters, ascending by rank; all of them when fewer exist.
pub open spec fn chars_by_rank_selection(
    cat: Catalog,
    store: ProgressStore,
    sel: Seq<usize>,
    limit: int,
) -> bool {
    &&& sel.len() <= limit
    &&& (forall|a: int, b: int| 0 <= a < b < sel.len() ==> sel[a] != sel[b])
    &&& (forall|a: int| 0 <= a < sel.len() ==> untracked_char(cat, store, #[trigger] sel[a] as int))
    &&& (forall|a: int, b: int|
        0 <= a < b < sel.len() ==> rank_of(cat, #[trigger] sel[a] as int) <= rank_of(
            cat,
            #[trigger] sel[b] as int,
        ))
    &&& (sel.len() < limit ==> (forall|c: int|
        #![trigger untracked_char(cat, store, c)]
        untracked_char(cat, store, c) ==> sel.contains(c as usize)))
    &&& (forall|c: int|
        #![trigger untracked_char(cat, store, c)]
        untracked_char(cat, store, c) && !sel.contains(c as usize) ==> (forall|a: int|
            0 <= a < sel.len() ==> rank_of(cat, #[trigger] sel[a] as int) <= rank_of(cat, c)))
}

/// `sel` holds the (at most) `limit` lowest-scored eligible candidates —
/// untracked characters and fully-prepared untracked words — ascending by
/// introduction score; all of them when fewer exist.
pub open spec fn scored_candidate_selection(
    cat: Catalog,
    store: ProgressStore,
    sel: Seq<usize>,
    limit: int,
) -> bool {
    &&& sel.len() <= limit
    &&& (forall|a: int, b: int| 0 <= a < b < sel.len() ==> sel[a] != sel[b])
    &&& (forall|a: int|
        0 <= a < sel.len() ==> eligible_candidate(cat, store, #[trigger] sel[a] as int))
    &&& (forall|a: int, b: int|
        0 <= a < b < sel.len() ==> score_of(cat, #[trigger] sel[a] as int) <= score_of(
            cat,
            #[trigger] sel[b] as int,
        ))
    &&& (sel.len() < limit ==> (forall|c: int|
        #![trigger eligible_candidate(cat, store, c)]
        eligible_candidate(cat, store, c) ==> sel.contains(c as usize)))
    &&& (forall|c: int|
        #![trigger eligible_candidate(cat, store, c)]
        eligible_candidate(cat, store, c) && !sel.contains(c as usize) ==> (forall|a: int|
            0 <= a < sel.len() ==> score_of(cat, #[trigger] sel[a] as int) <= score_of(cat, c)))
}

/// `sel` holds the (at most) `limit` lowest-ranked eligible words,
/// ascending by rank; all of them when fewer exist.
pub open spec fn words_by_rank_selection(
    cat: Catalog,
    store: ProgressStore,
    sel: Seq<usize>,
    limit: int,
) -> bool {
    &&& sel.len() <= limit
    &&& (forall|a: int, b: int| 0 <= a < b < sel.len() ==> sel[a] != sel[b])
    &&& (forall|a: int| 0 <= a < sel.len() ==> eligible_word(cat, store, #[trigger] sel[a] as int))
    &&& (forall|a: int, b: int|
        0 <= a < b < sel.len() ==> rank_of(cat, #[trigger] sel[a] as int) <= rank_of(
            cat,
            #[trigger] sel[b] as int,
        ))
    &&& (sel.len() < limit ==> (forall|c: int|
        #![trigger eligible_word(cat, store, c)]
        eligible_word(cat, store, c) ==> sel.contains(c as usize)))
    &&& (forall|c: int|
        #![trigger eligible_word(cat, store, c)]
        eligible_word(cat, store, c) && !sel.contains(c as usize) ==> (forall|a: int|
            0 <= a < sel.len() ==> rank_of(cat, #[trigger] sel[a] as int) <= rank_of(cat, c)))
}

/// `sel` holds the (at most) `limit` lowest-ranked ready-queue items,
/// ascending by rank; all of them when fewer exist.
pub open spec fn ready_by_rank_selection(
    cat: Catalog,
    store: ProgressStore,
    sel: Seq<usize>,
    limit: int,
) -> bool {
    &&& sel.len() <= limit
    &&& (forall|a: int, b: int| 0 <= a < b < sel.len() ==> sel[a] != sel[b])
    &&& (forall|a: int| 0 <= a < sel.len() ==> ready_item(cat, store, #[trigger] sel[a] as int))
    &&& (forall|a: int, b: int|
        0 <= a < b < sel.len() ==> rank_of(cat, #[trigger] sel[a] as int) <= rank_of(
            cat,
            #[trigger] sel[b] as int,
        ))
    &&& (sel.len() < limit ==> (forall|c: int|
        #![trigger ready_item(cat, store, c)]
        ready_item(cat, store, c) ==> sel.contains(c as usize)))
    &&& (forall|c: int|
        #![trigger ready_item(cat, store, c)]
        ready_item(cat, store, c) && !sel.contains(c as usize) ==> (forall|a: int|
            0 <= a < sel.len() ==> rank_of(cat, #[trigger] sel[a] as int) <= rank_of(cat, c)))
}

/// The records grew by exactly one fresh record per selected catalog index,
/// in selection order; everything already there is untouched.
pub open spec fn appended_fresh(
    cat: Catalog,
    old_records: Seq<ProgressRecord>,
    new_records: Seq<ProgressRecord>,
    sel: Seq<usize>,
    now: int,
    introduced: bool,
) -> bool {
    &&& new_records.len() == old_records.len() + sel.len()
    &&& (forall|j: int| 0 <= j < old_records.len() ==> new_records[j] == old_records[j])
    &&& (forall|a: int|
        0 <= a < sel.len() ==> new_records[old_records.len() + a] == fresh_record_spec(
            cat.items@[#[trigger] sel[a] as int].character.id,
            now,
            introduced,
        ))
}

/// Catalog index `c` is any single character.
pub open spec fn plain_char(cat: Catalog, c: int) -> bool {
    &&& 0 <= c < cat.items@.len()
    &&& !cat.items@[c].character.is_word
}

/// `sel` holds the (at most) `limit` lowest-ranked single characters of
/// the whole catalog, ascending by rank; all of them when fewer exist.
pub open spec fn all_chars_by_rank_selection(cat: Catalog, sel: Seq<usize>, limit: int) -> bool {
    &&& sel.len() <= limit
    &&& (forall|a: int, b: int| 0 <= a < b < sel.len() ==> sel[a] != sel[b])
    &&& (forall|a: int| 0 <= a < sel.len() ==> plain_char(cat, #[trigger] sel[a] as int))
    &&& (forall|a: int, b: int|
        0 <= a < b < sel.len() ==> rank_of(cat, #[trigger] sel[a] as int) <= rank_of(
            cat,
            #[trigger] sel[b] as int,
        ))
    &&& (sel.len() < limit ==> (forall|c: int|
        #![trigger plain_char(cat, c)]
        plain_char(cat, c) ==> sel.contains(c as usize)))
    &&& (forall|c: int|
        #![trigger plain_char(cat, c)]
        plain_char(cat, c) && !sel.contains(c as usize) ==> (forall|a: int|
            0 <= a < sel.len() ==> rank_of(cat, #[trigger] sel[a] as int) <= rank_of(cat, c)))
}

/// The most common single characters, ascending by frequency rank, at most
/// `limit` of them.
#[verifier::loop_isolation(false)]
pub fn get_characters_by_frequency(cat: &Catalog, limit: usize) -> (sel: Vec<usize>)
    requires
        cat.wf(),
    ensures
        all_chars_by_rank_selection(*cat, sel@, limit as int),
        forall|a: int| 0 <= a < sel@.len() ==> #[trigger] sel@[a] < cat.items@.len(),
{
    let ghost pred = |c: int| plain_char(*cat, c);
    let ghost keyf = |c: int| rank_of(*cat, c);
    let n = cat.items.len();
    let mut pairs: Vec<(i64, usize)> = Vec::new();
    let mut i: usize = 0;
    while i < n
        invariant
            0 <= i <= n,
            forall|a: int| 0 <= a < pairs@.len() ==> (#[trigger] pairs@[a]).1 < i,
            forall|a: int, b: int|
                0 <= a < b < pairs@.len() ==> (#[trigger] pairs@[a]).1 != (#[trigger] pairs@[b]).1,
            forall|a: int|
                0 <= a < pairs@.len() ==> pred((#[trigger] pairs@[a]).1 as int) && pairs@[a].0
                    as int == keyf(pairs@[a].1 as int),
            forall|c: int| #![trigger pred(c)] 0 <= c < i && pred(c) ==> holds_index(
                pairs@,
                c as usize,
            ),
        decreases n - i,
    {
        let ghost pre = pairs@;
        let item = &cat.items[i];
        if !item.character.is_word {
            pairs.push((item.character.frequency_rank as i64, i));
        }
        proof {
            assert forall|c: int| #![trigger pred(c)] 0 <= c < i + 1 && pred(c)
                implies holds_index(pairs@, c as usize) by {
                if c < i {
                    assert(holds_index(pre, c as usize));
                    let p = choose|p: int| 0 <= p < pre.len() && (#[trigger] pre[p]).1 == c;
                    assert(pairs@[p].1 == c);
                } else {
                    assert(pairs@[pairs@.len() - 1].1 == c);
                }
            }
        }
        i = i + 1;
    }
    let sel = take_lowest(&pairs, limit, Ghost(keyf));
    proof {
        assert forall|a: int|
            0 <= a < sel@.len() implies plain_char(*cat, #[trigger] sel@[a] as int) by {
            assert(holds_index(pairs@, sel@[a]));
            let p = choose|p: int| 0 <= p < pairs@.len() && (#[trigger] pairs@[p]).1 == sel@[a];
            assert(pred(pairs@[p].1 as int));
        }
        assert forall|a: int, b: int|
            0 <= a < b < sel@.len() implies rank_of(*cat, #[trigger] sel@[a] as int) <= rank_of(
            *cat,
            #[trigger] sel@[b] as int,
        ) by {
            assert(keyf(sel@[a] as int) <= keyf(sel@[b] as int));
        }
        assert forall|c: int|
            #![trigger plain_char(*cat, c)]
            plain_char(*cat, c) && !sel@.contains(c as usize) implies (forall|a: int|
            0 <= a < sel@.len() ==> rank_of(*cat, #[trigger] sel@[a] as int) <= rank_of(
                *cat,
                c,
            )) by {
            assert(pred(c));
            assert(holds_index(pairs@, c as usize));
            let p = choose|p: int| 0 <= p < pairs@.len() && (#[trigger] pairs@[p]).1 == c as usize;
            assert(!sel@.contains(pairs@[p].1));
            assert forall|a: int|
                0 <= a < sel@.len() implies rank_of(*cat, #[trigger] sel@[a] as int) <= rank_of(
                *cat,
                c,
            ) by {
                assert(keyf(sel@[a] as int) <= keyf(pairs@[p].1 as int));
            }
        }
        if sel@.len() < limit {
            assert forall|c: int|
                #![trigger plain_char(*cat, c)]
                plain_char(*cat, c) implies sel@.contains(c as usize) by {
                assert(pred(c));
                assert(holds_index(pairs@, c as usize));
                let p = choose|p: int|
                    0 <= p < pairs@.len() && (#[trigger] pairs@[p]).1 == c as usize;
                assert(sel@.contains(pairs@[p].1));
            }
        }
    }
    sel
}

/// The cooldown gate, fail-open: an empty or unparseable timer means the
/// cooldown is treated as elapsed.
pub open spec fn cooldown_elapsed(last: Seq<char>, now: int) -> bool {
    ||| last.len() == 0
    ||| match parse_datetime_spec(last) {
        None => true,
        Some(t) => now >= t + COOLDOWN_MINUTES as int,
    }
}

/// Executable cooldown gate.
pub fn cooldown_elapsed_exec(last: &String, now_minutes: u64) -> (r: bool)
    ensures
        r == cooldown_elapsed(last@, now_minutes as int),
{
    if last.as_str().is_empty() {
        return true;
    }
    match parse_datetime_minutes(last.as_str()) {
        None => true,
        Some(t) => t <= now_minutes && now_minutes - t >= COOLDOWN_MINUTES,
    }
}

/// Whether every component of this word item is already introduced (false
/// for an empty component list).
#[verifier::loop_isolation(false)]
fn word_components_introduced(store: &ProgressStore, item: &CatalogItem) -> (r: bool)
    requires
        store.wf(),
    ensures
        r == (item.component_ids@.len() > 0 && (forall|k: int|
            0 <= k < item.component_ids@.len() ==> store.spec_introduced(
                #[trigger] item.component_ids@[k],
            ))),
{
    let n = item.component_ids.len();
    if n == 0 {
        return false;
    }
    let mut k: usize = 0;
    while k < n
        invariant
            0 <= k <= n,
            forall|l: int| 0 <= l < k ==> store.spec_introduced(#[trigger] item.component_ids@[l]),
        decreases n - k,
    {
        if !store.is_introduced(item.component_ids[k]) {
            return false;
        }
        k = k + 1;
    }
    true
}

/// The lowest-ranked untracked single characters, ascending by rank.
#[verifier::loop_isolation(false)]
pub fn select_untracked_chars(cat: &Catalog, store: &ProgressStore, limit: usize) -> (sel: Vec<
    usize,
>)
    requires
        cat.wf(),
        store.wf(),
    ensures
        chars_by_rank_selection(*cat, *store, sel@, limit as int),
        forall|a: int| 0 <= a < sel@.len() ==> #[trigger] sel@[a] < cat.items@.len(),
{
    let ghost pred = |c: int| untracked_char(*cat, *store, c);
    let ghost keyf = |c: int| rank_of(*cat, c);
    let n = cat.items.len();
    let mut pairs: Vec<(i64, usize)> = Vec::new();
    let mut i: usize = 0;
    while i < n
        invariant
            0 <= i <= n,
            forall|a: int| 0 <= a < pairs@.len() ==> (#[trigger] pairs@[a]).1 < i,
            forall|a: int, b: int|
                0 <= a < b < pairs@.len() ==> (#[trigger] pairs@[a]).1 != (#[trigger] pairs@[b]).1,
            forall|a: int|
                0 <= a < pairs@.len() ==> pred((#[trigger] pairs@[a]).1 as int) && pairs@[a].0
                    as int == keyf(pairs@[a].1 as int),
            forall|c: int| #![trigger pred(c)] 0 <= c < i && pred(c) ==> holds_index(
                pairs@,
                c as usize,
            ),
        decreases n - i,
    {
        let ghost pre = pairs@;
        let item = &cat.items[i];
        if !item.character.is_word {
            if store.find_index(item.character.id).is_none() {
                pairs.push((item.character.frequency_rank as i64, i));
            }
        }
        proof {
            assert forall|c: int| #![trigger pred(c)] 0 <= c < i + 1 && pred(c)
                implies holds_index(pairs@, c as usize) by {
                if c < i {
                    assert(holds_index(pre, c as usize));
                    let p = choose|p: int| 0 <= p < pre.len() && (#[trigger] pre[p]).1 == c;
                    assert(pairs@[p].1 == c);
                } else {
                    assert(pairs@[pairs@.len() - 1].1 == c);
                }
            }
        }
        i = i + 1;
    }
    let sel = take_lowest(&pairs, limit, Ghost(keyf));
    proof {
        assert forall|a: int|
            0 <= a < sel@.len() implies untracked_char(*cat, *store, #[trigger] sel@[a] as int) by {
            assert(holds_index(pairs@, sel@[a]));
            let p = choose|p: int| 0 <= p < pairs@.len() && (#[trigger] pairs@[p]).1 == sel@[a];
            assert(pred(pairs@[p].1 as int));
        }
        assert forall|a: int, b: int|
            0 <= a < b < sel@.len() implies rank_of(*cat, #[trigger] sel@[a] as int) <= rank_of(
            *cat,
            #[trigger] sel@[b] as int,
        ) by {
            assert(keyf(sel@[a] as int) <= keyf(sel@[b] as int));
        }
        assert forall|c: int|
            #![trigger untracked_char(*cat, *store, c)]
            untracked_char(*cat, *store, c) && !sel@.contains(c as usize) implies (forall|a: int|
            0 <= a < sel@.len() ==> rank_of(*cat, #[trigger] sel@[a] as int) <= rank_of(
                *cat,
                c,
            )) by {
            assert(pred(c));
            assert(holds_index(pairs@, c as usize));
            let p = choose|p: int| 0 <= p < pairs@.len() && (#[trigger] pairs@[p]).1 == c as usize;
            assert(!sel@.contains(pairs@[p].1));
            assert forall|a: int|
                0 <= a < sel@.len() implies rank_of(*cat, #[trigger] sel@[a] as int) <= rank_of(
                *cat,
                c,
            ) by {
                assert(keyf(sel@[a] as int) <= keyf(pairs@[p].1 as int));
            }
        }
        if sel@.len() < limit {
            assert forall|c: int|
                #![trigger untracked_char(*cat, *store, c)]
                untracked_char(*cat, *store, c) implies sel@.contains(c as usize) by {
                assert(pred(c));
                assert(holds_index(pairs@, c as usize));
                let p = choose|p: int|
                    0 <= p < pairs@.len() && (#[trigger] pairs@[p]).1 == c as usize;
                assert(sel@.contains(pairs@[p].1));
            }
        }
    }
    sel
}

/// The lowest-scored eligible candidates — untracked characters, and
/// untracked words whose components are all introduced — ascending by
/// introduction score. This is the batch the unlock scheduler releases.
#[verifier::loop_isolation(false)]
pub fn get_next_introduction_batch_mixed(cat: &Catalog, store: &ProgressStore, batch_size: usize)
    -> (sel: Vec<usize>)
    requires
        cat.wf(),
        store.wf(),
    ensures
        scored_candidate_selection(*cat, *store, sel@, batch_size as int),
        forall|a: int| 0 <= a < sel@.len() ==> #[trigger] sel@[a] < cat.items@.len(),
{
    let ghost pred = |c: int| eligible_candidate(*cat, *store, c);
    let ghost keyf = |c: int| score_of(*cat, c);
    let n = cat.items.len();
    let mut pairs: Vec<(i64, usize)> = Vec::new();
    let mut i: usize = 0;
    while i < n
        invariant
            0 <= i <= n,
            forall|a: int| 0 <= a < pairs@.len() ==> (#[trigger] pairs@[a]).1 < i,
            forall|a: int, b: int|
                0 <= a < b < pairs@.len() ==> (#[trigger] pairs@[a]).1 != (#[trigger] pairs@[b]).1,
            forall|a: int|
                0 <= a < pairs@.len() ==> pred((#[trigger] pairs@[a]).1 as int) && pairs@[a].0
                    as int == keyf(pairs@[a].1 as int),
            forall|c: int| #![trigger pred(c)] 0 <= c < i && pred(c) ==> holds_index(
                pairs@,
                c as usize,
            ),
        decreases n - i,
    {
        let ghost pre = pairs@;
        let item = &cat.items[i];
        let tracked_already = store.find_index(item.character.id).is_some();
        let mut keep = false;
        if !tracked_already {
            if !item.character.is_word {
                keep = true;
            } else {
                keep = word_components_introduced(store, item);
            }
        }
        if keep {
            let score = calculate_introduction_score(cat, item);
            pairs.push((score, i));
        }
        proof {
            assert forall|c: int| #![trigger pred(c)] 0 <= c < i + 1 && pred(c)
                implies holds_index(pairs@, c as usize) by {
                if c < i {
                    assert(holds_index(pre, c as usize));
                    let p = choose|p: int| 0 <= p < pre.len() && (#[trigger] pre[p]).1 == c;
                    assert(pairs@[p].1 == c);
                } else {
                    assert(keep);
                    assert(pairs@[pairs@.len() - 1].1 == c);
                }
            }
        }
        i = i + 1;
    }
    let sel = take_lowest(&pairs, batch_size, Ghost(keyf));
    proof {
        assert forall|a: int|
            0 <= a < sel@.len() implies eligible_candidate(
            *cat,
            *store,
            #[trigger] sel@[a] as int,
        ) by {
            assert(holds_index(pairs@, sel@[a]));
            let p = choose|p: int| 0 <= p < pairs@.len() && (#[trigger] pairs@[p]).1 == sel@[a];
            assert(pred(pairs@[p].1 as int));
        }
        assert forall|a: int, b: int|
            0 <= a < b < sel@.len() implies score_of(*cat, #[trigger] sel@[a] as int) <= score_of(
            *cat,
            #[trigger] sel@[b] as int,
        ) by {
            assert(keyf(sel@[a] as int) <= keyf(sel@[b] as int));
        }
        assert forall|c: int|
            #![trigger eligible_candidate(*cat, *store, c)]
            eligible_candidate(*cat, *store, c) && !sel@.contains(c as usize) implies (forall|
                a: int,
            | 0 <= a < sel@.len() ==> score_of(*cat, #[trigger] sel@[a] as int) <= score_of(
                *cat,
                c,
            )) by {
            assert(pred(c));
            assert(holds_index(pairs@, c as usize));
            let p = choose|p: int| 0 <= p < pairs@.len() && (#[trigger] pairs@[p]).1 == c as usize;
            assert(!sel@.contains(pairs@[p].1));
            assert forall|a: int|
                0 <= a < sel@.len() implies score_of(*cat, #[trigger] sel@[a] as int) <= score_of(
                *cat,
                c,
            ) by {
                assert(keyf(sel@[a] as int) <= keyf(pairs@[p].1 as int));
            }
        }
        if sel@.len() < batch_size {
            assert forall|c: int|
                #![trigger eligible_candidate(*cat, *store, c)]
                eligible_candidate(*cat, *store, c) implies sel@.contains(c as usize) by {
                assert(pred(c));
                assert(holds_index(pairs@, c as usize));
                let p = choose|p: int|
                    0 <= p < pairs@.len() && (#[trigger] pairs@[p]).1 == c as usize;
                assert(sel@.contains(pairs@[p].1));
            }
        }
    }
    sel
}

/// The lowest-ranked eligible words, ascending by frequency rank: untracked
/// words with a known component list, every component introduced.
#[verifier::loop_isolation(false)]
pub fn get_eligible_words(cat: &Catalog, store: &ProgressStore, limit: usize) -> (sel: Vec<usize>)
    requires
        cat.wf(),
        store.wf(),
    ensures
        words_by_rank_selection(*cat, *store, sel@, limit as int),
        forall|a: int| 0 <= a < sel@.len() ==> #[trigger] sel@[a] < cat.items@.len(),
{
    let ghost pred = |c: int| eligible_word(*cat, *store, c);
    let ghost keyf = |c: int| rank_of(*cat, c);
    let n = cat.items.len();
    let mut pairs: Vec<(i64, usize)> = Vec::new();
    let mut i: usize = 0;
    while i < n
        invariant
            0 <= i <= n,
            forall|a: int| 0 <= a < pairs@.len() ==> (#[trigger] pairs@[a]).1 < i,
            forall|a: int, b: int|
                0 <= a < b < pairs@.len() ==> (#[trigger] pairs@[a]).1 != (#[trigger] pairs@[b]).1,
            forall|a: int|
                0 <= a < pairs@.len() ==> pred((#[trigger] pairs@[a]).1 as int) && pairs@[a].0
                    as int == keyf(pairs@[a].1 as int),
            forall|c: int| #![trigger pred(c)] 0 <= c < i && pred(c) ==> holds_index(
                pairs@,
                c as usize,
            ),
        decreases n - i,
    {
        let ghost pre = pairs@;
        let item = &cat.items[i];
        let mut keep = false;
        if item.character.is_word {
            if store.find_index(item.character.id).is_none() {
                keep = word_components_introduced(store, item);
            }
        }
        if keep {
            pairs.push((item.character.frequency_rank as i64, i));
        }
        proof {
            assert forall|c: int| #![trigger pred(c)] 0 <= c < i + 1 && pred(c)
                implies holds_index(pairs@, c as usize) by {
                if c < i {
                    assert(holds_index(pre, c as usize));
                    let p = choose|p: int| 0 <= p < pre.len() && (#[trigger] pre[p]).1 == c;
                    assert(pairs@[p].1 == c);
                } else {
                    assert(keep);
                    assert(pairs@[pairs@.len() - 1].1 == c);
                }
            }
        }
        i = i + 1;
    }
    let sel = take_lowest(&pairs, limit, Ghost(keyf));
    proof {
        assert forall|a: int|
            0 <= a < sel@.len() implies eligible_word(*cat, *store, #[trigger] sel@[a] as int) by {
            assert(holds_index(pairs@, sel@[a]));
            let p = choose|p: int| 0 <= p < pairs@.len() && (#[trigger] pairs@[p]).1 == sel@[a];
            assert(pred(pairs@[p].1 as int));
        }
        assert forall|a: int, b: int|
            0 <= a < b < sel@.len() implies rank_of(*cat, #[trigger] sel@[a] as int) <= rank_of(
            *cat,
            #[trigger] sel@[b] as int,
        ) by {
            assert(keyf(sel@[a] as int) <= keyf(sel@[b] as int));
        }
        assert forall|c: int|
            #![trigger eligible_word(*cat, *store, c)]
            eligible_word(*cat, *store, c) && !sel@.contains(c as usize) implies (forall|a: int|
            0 <= a < sel@.len() ==> rank_of(*cat, #[trigger] sel@[a] as int) <= rank_of(
                *cat,
                c,
            )) by {
            assert(pred(c));
            assert(holds_index(pairs@, c as usize));
            let p = choose|p: int| 0 <= p < pairs@.len() && (#[trigger] pairs@[p]).1 == c as usize;
            assert(!sel@.contains(pairs@[p].1));
            assert forall|a: int|
                0 <= a < sel@.len() implies rank_of(*cat, #[trigger] sel@[a] as int) <= rank_of(
                *cat,
                c,
            ) by {
                assert(keyf(sel@[a] as int) <= keyf(pairs@[p].1 as int));
            }
        }
        if sel@.len() < limit {
            assert forall|c: int|
                #![trigger eligible_word(*cat, *store, c)]
                eligible_word(*cat, *store, c) implies sel@.contains(c as usize) by {
                assert(pred(c));
                assert(holds_index(pairs@, c as usize));
                let p = choose|p: int|
                    0 <= p < pairs@.len() && (#[trigger] pairs@[p]).1 == c as usize;
                assert(sel@.contains(pairs@[p].1));
            }
        }
    }
    sel
}

/// The ready-to-learn queue joined back to the catalog, lowest rank first.
#[verifier::loop_isolation(false)]
pub fn get_unlocked_characters_batch(cat: &Catalog, store: &ProgressStore, batch_size: usize) -> (
    sel: Vec<usize>)
    requires
        cat.wf(),
        store.wf(),
    ensures
        ready_by_rank_selection(*cat, *store, sel@, batch_size as int),
        forall|a: int| 0 <= a < sel@.len() ==> #[trigger] sel@[a] < cat.items@.len(),
{
    let ghost pred = |c: int| ready_item(*cat, *store, c);
    let ghost keyf = |c: int| rank_of(*cat, c);
    let n = cat.items.len();
    let mut pairs: Vec<(i64, usize)> = Vec::new();
    let mut i: usize = 0;
    while i < n
        invariant
            0 <= i <= n,
            forall|a: int| 0 <= a < pairs@.len() ==> (#[trigger] pairs@[a]).1 < i,
            forall|a: int, b: int|
                0 <= a < b < pairs@.len() ==> (#[trigger] pairs@[a]).1 != (#[trigger] pairs@[b]).1,
            forall|a: int|
                0 <= a < pairs@.len() ==> pred((#[trigger] pairs@[a]).1 as int) && pairs@[a].0
                    as int == keyf(pairs@[a].1 as int),
            forall|c: int| #![trigger pred(c)] 0 <= c < i && pred(c) ==> holds_index(
                pairs@,
                c as usize,
            ),
        decreases n - i,
    {
        let ghost pre = pairs@;
        let item = &cat.items[i];
        if store.is_ready(item.character.id) {
            pairs.push((item.character.frequency_rank as i64, i));
        }
        proof {
            assert forall|c: int| #![trigger pred(c)] 0 <= c < i + 1 && pred(c)
                implies holds_index(pairs@, c as usize) by {
                if c < i {
                    assert(holds_index(pre, c as usize));
                    let p = choose|p: int| 0 <= p < pre.len() && (#[trigger] pre[p]).1 == c;
                    assert(pairs@[p].1 == c);
                } else {
                    assert(pairs@[pairs@.len() - 1].1 == c);
                }
            }
        }
        i = i + 1;
    }
    let sel = take_lowest(&pairs, batch_size, Ghost(keyf));
    proof {
        assert forall|a: int|
            0 <= a < sel@.len() implies ready_item(*cat, *store, #[trigger] sel@[a] as int) by {
            assert(holds_index(pairs@, sel@[a]));
            let p = choose|p: int| 0 <= p < pairs@.len() && (#[trigger] pairs@[p]).1 == sel@[a];
            assert(pred(pairs@[p].1 as int));
        }
        assert forall|a: int, b: int|
            0 <= a < b < sel@.len() implies rank_of(*cat, #[trigger] sel@[a] as int) <= rank_of(
            *cat,
            #[trigger] sel@[b] as int,
        ) by {
            assert(keyf(sel@[a] as int) <= keyf(sel@[b] as int));
        }
        assert forall|c: int|
            #![trigger ready_item(*cat, *store, c)]
            ready_item(*cat, *store, c) && !sel@.contains(c as usize) implies (forall|a: int|
            0 <= a < sel@.len() ==> rank_of(*cat, #[trigger] sel@[a] as int) <= rank_of(
                *cat,
                c,
            )) by {
            assert(pred(c));
            assert(holds_index(pairs@, c as usize));
            let p = choose|p: int| 0 <= p < pairs@.len() && (#[trigger] pairs@[p]).1 == c as usize;
            assert(!sel@.contains(pairs@[p].1));
            assert forall|a: int|
                0 <= a < sel@.len() implies rank_of(*cat, #[trigger] sel@[a] as int) <= rank_of(
                *cat,
                c,
            ) by {
                assert(keyf(sel@[a] as int) <= keyf(pairs@[p].1 as int));
            }
        }
        if sel@.len() < batch_size {
            assert forall|c: int|
                #![trigger ready_item(*cat, *store, c)]
                ready_item(*cat, *store, c) implies sel@.contains(c as usize) by {
                assert(pred(c));
                assert(holds_index(pairs@, c as usize));
                let p = choose|p: int|
                    0 <= p < pairs@.len() && (#[trigger] pairs@[p]).1 == c as usize;
                assert(sel@.contains(pairs@[p].1));
            }
        }
    }
    sel
}

/// Build fresh records for the selected catalog indices.
#[verifier::loop_isolation(false)]
fn records_for_selection(cat: &Catalog, sel: &Vec<usize>, now_minutes: u64, introduced: bool) -> (
    recs: Vec<ProgressRecord>)
    requires
        forall|a: int| 0 <= a < sel@.len() ==> #[trigger] sel@[a] < cat.items@.len(),
    ensures
        recs@.len() == sel@.len(),
        forall|a: int|
            0 <= a < sel@.len() ==> recs@[a] == fresh_record_spec(
                cat.items@[#[trigger] sel@[a] as int].character.id,
                now_minutes as int,
                introduced,
            ),
        forall|a: int|
            0 <= a < sel@.len() ==> (#[trigger] recs@[a]).character_id
                == cat.items@[sel@[a] as int].character.id,
{
    let m = sel.len();
    let mut recs: Vec<ProgressRecord> = Vec::new();
    let mut k: usize = 0;
    while k < m
        invariant
            0 <= k <= m,
            recs@.len() == k,
            forall|a: int|
                0 <= a < k ==> recs@[a] == fresh_record_spec(
                    cat.items@[#[trigger] sel@[a] as int].character.id,
                    now_minutes as int,
                    introduced,
                ),
        decreases m - k,
    {
        let idx = sel[k];
        recs.push(new_record(cat.items[idx].character.id, now_minutes, introduced));
        k = k + 1;
    }
    recs
}

/// The one-time initial unlock: place the lowest-ranked untracked single
/// characters in the ready queue and set the initialization flag, all in
/// one transaction. A second call is a no-op.
pub fn initialize_new_user_characters(cat: &Catalog, store: &mut ProgressStore, now_minutes: u64)
    -> (r: Result<usize, StoreError>)
    requires
        cat.wf(),
        old(store).wf(),
    ensures
        final(store).wf(),
        old(store).initial_unlock_completed ==> {
            &&& r == Ok::<usize, StoreError>(0)
            &&& same_store_data(*final(store), *old(store))
            &&& final(store).fail_next_write == old(store).fail_next_write
        },
        !old(store).initial_unlock_completed && old(store).fail_next_write ==> {
            &&& r == Err::<usize, StoreError>(StoreError::Persistence)
            &&& same_store_data(*final(store), *old(store))
            &&& !final(store).fail_next_write
        },
        !old(store).initial_unlock_completed && !old(store).fail_next_write ==> exists|
            sel: Seq<usize>,
        | {
            &&& chars_by_rank_selection(*cat, *old(store), sel, INITIAL_UNLOCK_COUNT as int)
            &&& r == Ok::<usize, StoreError>(sel.len() as usize)
            &&& #[trigger] appended_fresh(
                *cat,
                old(store).records@,
                final(store).records@,
                sel,
                now_minutes as int,
                false,
            )
            &&& final(store).initial_unlock_completed
            &&& final(store).last_unlock_date@ == old(store).last_unlock_date@
            &&& !final(store).fail_next_write
        },
{
    if store.initial_unlock_completed {
        return Ok(0);
    }
    let sel = select_untracked_chars(cat, store, INITIAL_UNLOCK_COUNT);
    let recs = records_for_selection(cat, &sel, now_minutes, false);
    proof {
        assert forall|a: int, b: int|
            0 <= a < b < recs@.len() implies (#[trigger] recs@[a]).character_id != (
        #[trigger] recs@[b]).character_id by {
            assert(sel@[a] != sel@[b]);
            assert(untracked_char(*cat, *store, sel@[a] as int));
            assert(untracked_char(*cat, *store, sel@[b] as int));
        }
        assert forall|a: int|
            0 <= a < recs@.len() implies !store.spec_contains(
            (#[trigger] recs@[a]).character_id,
        ) by {
            assert(untracked_char(*cat, *store, sel@[a] as int));
        }
    }
    match store.insert_batch(recs, None, true) {
        Ok(count) => {
            proof {
                assert(appended_fresh(
                    *cat,
                    old(store).records@,
                    store.records@,
                    sel@,
                    now_minutes as int,
                    false,
                ));
            }
            Ok(count)
        },
        Err(e) => Err(e),
    }
}

/// One scheduler step, as the learner's check-in triggers it:
/// - uninitialized: run the initial unlock and stop (no cooldown starts);
/// - ready queue non-empty: no-op (awaiting drain);
/// - cooldown not elapsed: no-op — a second check-in inside the window
///   inserts nothing;
/// - otherwise: release the lowest-scored eligible batch as one atomic
///   transaction and stamp the unlock timer with the current time. On a
///   storage fault nothing at all changes (no records, no timer).
///
/// Returns how many items were unlocked, and whether a batch release
/// happened.
pub fn check_and_unlock_characters(cat: &Catalog, store: &mut ProgressStore, now_minutes: u64) -> (
    r: Result<(usize, bool), StoreError>)
    requires
        cat.wf(),
        old(store).wf(),
    ensures
        final(store).wf(),
        !old(store).initial_unlock_completed && old(store).fail_next_write ==> {
            &&& r == Err::<(usize, bool), StoreError>(StoreError::Persistence)
            &&& same_store_data(*final(store), *old(store))
            &&& !final(store).fail_next_write
        },
        !old(store).initial_unlock_completed && !old(store).fail_next_write ==> exists|
            sel: Seq<usize>,
        | {
            &&& chars_by_rank_selection(*cat, *old(store), sel, INITIAL_UNLOCK_COUNT as int)
            &&& r == Ok::<(usize, bool), StoreError>((sel.len() as usize, false))
            &&& #[trigger] appended_fresh(
                *cat,
                old(store).records@,
                final(store).records@,
                sel,
                now_minutes as int,
                false,
            )
            &&& final(store).initial_unlock_completed
            &&& final(store).last_unlock_date@ == old(store).last_unlock_date@
            &&& !final(store).fail_next_write
        },
        old(store).initial_unlock_completed && count_ready(old(store).records@) > 0 ==> {
            &&& r == Ok::<(usize, bool), StoreError>((0, false))
            &&& same_store_data(*final(store), *old(store))
            &&& final(store).fail_next_write == old(store).fail_next_write
        },
        old(store).initial_unlock_completed && count_ready(old(store).records@) == 0
            && !cooldown_elapsed(old(store).last_unlock_date@, now_minutes as int) ==> {
            &&& r == Ok::<(usize, bool), StoreError>((0, false))
            &&& same_store_data(*final(store), *old(store))
            &&& final(store).fail_next_write == old(store).fail_next_write
        },
        old(store).initial_unlock_completed && count_ready(old(store).records@) == 0
            && cooldown_elapsed(old(store).last_unlock_date@, now_minutes as int) && (forall|
            c: int,
        | !eligible_candidate(*cat, *old(store), c)) ==> {
            &&& r == Ok::<(usize, bool), StoreError>((0, false))
            &&& same_store_data(*final(store), *old(store))
            &&& final(store).fail_next_write == old(store).fail_next_write
        },
        old(store).initial_unlock_completed && count_ready(old(store).records@) == 0
            && cooldown_elapsed(old(store).last_unlock_date@, now_minutes as int) && (exists|
            c: int,
        | eligible_candidate(*cat, *old(store), c)) && old(store).fail_next_write ==> {
            &&& r == Err::<(usize, bool), StoreError>(StoreError::Persistence)
            &&& same_store_data(*final(store), *old(store))
            &&& !final(store).fail_next_write
        },
        old(store).initial_unlock_completed && count_ready(old(store).records@) == 0
            && cooldown_elapsed(old(store).last_unlock_date@, now_minutes as int) && (exists|
            c: int,
        | eligible_candidate(*cat, *old(store), c)) && !old(store).fail_next_write ==> exists|
            sel: Seq<usize>,
        | {
            &&& scored_candidate_selection(*cat, *old(store), sel, UNLOCK_BATCH_SIZE as int)
            &&& sel.len() >= 1
            &&& r == Ok::<(usize, bool), StoreError>((sel.len() as usize, true))
            &&& #[trigger] appended_fresh(
                *cat,
                old(store).records@,
                final(store).records@,
                sel,
                now_minutes as int,
                false,
            )
            &&& final(store).initial_unlock_completed
            &&& final(store).last_unlock_date@ == format_datetime_spec(now_minutes as int)
            &&& !final(store).fail_next_write
        },
{
    if !store.initial_unlock_completed {
        return match initialize_new_user_characters(cat, store, now_minutes) {
            Ok(n) => Ok((n, false)),
            Err(e) => Err(e),
        };
    }
    let ready = store.get_ready_to_learn_count();
    if ready > 0 {
        return Ok((0, false));
    }
    if !cooldown_elapsed_exec(&store.last_unlock_date, now_minutes) {
        return Ok((0, false));
    }
    let sel = get_next_introduction_batch_mixed(cat, store, UNLOCK_BATCH_SIZE);
    if sel.len() == 0 {
        proof {
            assert forall|c: int|
                #![trigger eligible_candidate(*cat, *old(store), c)]
                !eligible_candidate(*cat, *old(store), c) by {
                if eligible_candidate(*cat, *old(store), c) {
                    assert(sel@.contains(c as usize));
                }
            }
        }
        return Ok((0, false));
    }
    let recs = records_for_selection(cat, &sel, now_minutes, false);
    proof {
        assert forall|a: int, b: int|
            0 <= a < b < recs@.len() implies (#[trigger] recs@[a]).character_id != (
        #[trigger] recs@[b]).character_id by {
            assert(sel@[a] != sel@[b]);
            assert(eligible_candidate(*cat, *store, sel@[a] as int));
            assert(eligible_candidate(*cat, *store, sel@[b] as int));
        }
        assert forall|a: int|
            0 <= a < recs@.len() implies !store.spec_contains(
            (#[trigger] recs@[a]).character_id,
        ) by {
            assert(eligible_candidate(*cat, *store, sel@[a] as int));
        }
        assert(eligible_candidate(*cat, *store, sel@[0] as int));
    }
    let stamp = format_datetime_minutes(now_minutes);
    match store.insert_batch(recs, Some(stamp), false) {
        Ok(n) => {
            proof {
                assert(appended_fresh(
                    *cat,
                    old(store).records@,
                    store.records@,
                    sel@,
                    now_minutes as int,
                    false,
                ));
            }
            Ok((n, true))
        },
        Err(e) => Err(e),
    }
}

/// How far away the next automatic unlock is.
pub open spec fn hours_until_spec(records: Seq<ProgressRecord>, last: Seq<char>, now: int) ->
    Option<int> {
    if count_ready(records) > 0 {
        None
    } else if last.len() == 0 {
        Some(0int)
    } else {
        match parse_datetime_spec(last) {
            None => Some(0int),
            Some(t) => if now >= t + COOLDOWN_MINUTES as int {
                Some(0int)
            } else if t <= now {
                Some(COOLDOWN_HOURS as int - (now - t) / 60)
            } else {
                Some(COOLDOWN_HOURS as int + (t - now) / 60)
            },
        }
    }
}

/// Hours until the next unlock: `None` whenever any record still sits in
/// the ready queue — the queue and the timer are mutually exclusive gates —
/// and otherwise the remaining cooldown, 0 when elapsed, unset, or
/// unreadable (fail open).
pub fn get_hours_until_next_unlock(store: &ProgressStore, now_minutes: u64) -> (r: Option<u64>)
    ensures
        r is None <==> count_ready(store.records@) > 0,
        r matches Some(h) ==> Some(h as int) == hours_until_spec(
            store.records@,
            store.last_unlock_date@,
            now_minutes as int,
        ),
{
    let ready = store.get_ready_to_learn_count();
    if ready > 0 {
        return None;
    }
    if store.last_unlock_date.as_str().is_empty() {
        return Some(0);
    }
    match parse_datetime_minutes(store.last_unlock_date.as_str()) {
        None => Some(0),
        Some(t) => {
            if t <= now_minutes {
                let elapsed = now_minutes - t;
                if elapsed >= COOLDOWN_MINUTES {
                    Some(0)
                } else {
                    Some(COOLDOWN_HOURS - elapsed / 60)
                }
            } else {
                Some(COOLDOWN_HOURS + (t - now_minutes) / 60)
            }
        },
    }
}

/// The learner has introduced everything in the ready queue: if the queue
/// really is empty, stamp the unlock timer so the cooldown for the next
/// release starts now. Returns whether the timer was set.
pub fn mark_all_ready_characters_introduced(store: &mut ProgressStore, now_minutes: u64) -> (
    stamped: bool)
    ensures
        final(store).records@ == old(store).records@,
        final(store).initial_unlock_completed == old(store).initial_unlock_completed,
        final(store).fail_next_write == old(store).fail_next_write,
        count_ready(old(store).records@) == 0 ==> stamped && final(store).last_unlock_date@
            == format_datetime_spec(now_minutes as int),
        count_ready(old(store).records@) > 0 ==> !stamped && final(store).last_unlock_date@ == old(
            store,
        ).last_unlock_date@,
{
    let ready = store.get_ready_to_learn_count();
    if ready == 0 {
        store.last_unlock_date = format_datetime_minutes(now_minutes);
        true
    } else {
        false
    }
}

/// Unlock the single lowest-ranked untracked character, if any is left:
/// place its fresh record in the ready queue and hand the item back.
pub fn unlock_next_character(cat: &Catalog, store: &mut ProgressStore, now_minutes: u64) -> (r:
    Result<Option<Character>, StoreError>)
    requires
        cat.wf(),
        old(store).wf(),
    ensures
        final(store).wf(),
        (forall|c: int| !untracked_char(*cat, *old(store), c)) ==> {
            &&& r == Ok::<Option<Character>, StoreError>(None)
            &&& same_store_data(*final(store), *old(store))
            &&& final(store).fail_next_write == old(store).fail_next_write
        },
        (exists|c: int| untracked_char(*cat, *old(store), c)) && old(store).fail_next_write ==> {
            &&& r == Err::<Option<Character>, StoreError>(StoreError::Persistence)
            &&& same_store_data(*final(store), *old(store))
            &&& !final(store).fail_next_write
        },
        (exists|c: int| untracked_char(*cat, *old(store), c)) && !old(store).fail_next_write
            ==> exists|c: int| {
            &&& #[trigger] untracked_char(*cat, *old(store), c)
            &&& (forall|c2: int|
                #![trigger untracked_char(*cat, *old(store), c2)]
                untracked_char(*cat, *old(store), c2) ==> rank_of(*cat, c) <= rank_of(*cat, c2))
            &&& r == Ok::<Option<Character>, StoreError>(Some(cat.items@[c].character))
            &&& final(store).records@ == old(store).records@.push(
                fresh_record_spec(cat.items@[c].character.id, now_minutes as int, false),
            )
            &&& final(store).initial_unlock_completed == old(store).initial_unlock_completed
            &&& final(store).last_unlock_date@ == old(store).last_unlock_date@
            &&& !final(store).fail_next_write
        },
{
    let sel = select_untracked_chars(cat, store, 1);
    if sel.len() == 0 {
        proof {
            assert forall|c: int|
                #![trigger untracked_char(*cat, *old(store), c)]
                !untracked_char(*cat, *old(store), c) by {
                if untracked_char(*cat, *old(store), c) {
                    assert(sel@.contains(c as usize));
                }
            }
        }
        return Ok(None);
    }
    let idx = sel[0];
    let recs = records_for_selection(cat, &sel, now_minutes, false);
    let catalog_len = cat.items.len();
    let ghost c = sel@[0] as int;
    proof {
        assert(cat.items@.len() == catalog_len);
        assert(untracked_char(*cat, *store, c));
        assert(sel@.len() == 1);
        assert forall|c2: int|
            #![trigger untracked_char(*cat, *store, c2)]
            untracked_char(*cat, *store, c2) implies rank_of(*cat, c) <= rank_of(*cat, c2) by {
            if !sel@.contains(c2 as usize) {
                assert(rank_of(*cat, sel@[0] as int) <= rank_of(*cat, c2));
            } else {
                let a = choose|a: int| 0 <= a < sel@.len() && sel@[a] == c2 as usize;
                assert(a == 0);
                assert(c2 == c);
            }
        }
    }
    match store.insert_batch(recs, None, false) {
        Ok(_) => {
            proof {
                assert(store.records@ =~= old(store).records@.push(
                    fresh_record_spec(cat.items@[c].character.id, now_minutes as int, false),
                ));
            }
            Ok(Some(cat.items[idx].character.duplicate()))
        },
        Err(e) => Err(e),
    }
}

/// Track and immediately introduce the `count` lowest-ranked untracked
/// characters, each due for review right away.
pub fn introduce_multiple_characters(cat: &Catalog, store: &mut ProgressStore, count: usize,
    now_minutes: u64) -> (r: Result<usize, StoreError>)
    requires
        cat.wf(),
        old(store).wf(),
    ensures
        final(store).wf(),
        old(store).fail_next_write ==> {
            &&& r == Err::<usize, StoreError>(StoreError::Persistence)
            &&& same_store_data(*final(store), *old(store))
            &&& !final(store).fail_next_write
        },
        !old(store).fail_next_write ==> exists|sel: Seq<usize>| {
            &&& chars_by_rank_selection(*cat, *old(store), sel, count as int)
            &&& r == Ok::<usize, StoreError>(sel.len() as usize)
            &&& #[trigger] appended_fresh(
                *cat,
                old(store).records@,
                final(store).records@,
                sel,
                now_minutes as int,
                true,
            )
            &&& final(store).initial_unlock_completed == old(store).initial_unlock_completed
            &&& final(store).last_unlock_date@ == old(store).last_unlock_date@
            &&& !final(store).fail_next_write
        },
{
    let sel = select_untracked_chars(cat, store, count);
    let recs = records_for_selection(cat, &sel, now_minutes, true);
    proof {
        assert forall|a: int, b: int|
            0 <= a < b < recs@.len() implies (#[trigger] recs@[a]).character_id != (
        #[trigger] recs@[b]).character_id by {
            assert(sel@[a] != sel@[b]);
            assert(untracked_char(*cat, *store, sel@[a] as int));
            assert(untracked_char(*cat, *store, sel@[b] as int));
        }
        assert forall|a: int|
            0 <= a < recs@.len() implies !store.spec_contains(
            (#[trigger] recs@[a]).character_id,
        ) by {
            assert(untracked_char(*cat, *store, sel@[a] as int));
        }
    }
    match store.insert_batch(recs, None, false) {
        Ok(n) => {
            proof {
                assert(appended_fresh(
                    *cat,
                    old(store).records@,
                    store.records@,
                    sel@,
                    now_minutes as int,
                    true,
                ));
            }
            Ok(n)
        },
        Err(e) => Err(e),
    }
}

/// What a check-in reports back to the learner.
#[derive(Debug, Clone)]
pub struct UnlockStatus {
    pub unlocked_count: usize,
    pub ready_to_learn_count: usize,
    pub hours_until_next_unlock: Option<u64>,
}

/// The current unlock state, without changing anything.
pub fn get_unlock_status(store: &ProgressStore, now_minutes: u64) -> (r: UnlockStatus)
    ensures
        r.unlocked_count == 0,
        r.ready_to_learn_count as int == count_ready(store.records@),
        r.hours_until_next_unlock is None <==> count_ready(store.records@) > 0,
        r.hours_until_next_unlock matches Some(h) ==> Some(h as int) == hours_until_spec(
            store.records@,
            store.last_unlock_date@,
            now_minutes as int,
        ),
{
    UnlockStatus {
        unlocked_count: 0,
        ready_to_learn_count: store.get_ready_to_learn_count(),
        hours_until_next_unlock: get_hours_until_next_unlock(store, now_minutes),
    }
}

/// Law: a freshly stamped unlock timer reads back as the stamping time, so
/// the cooldown gate stays closed for the whole wait after a release (for
/// stamping times whose year stays below 10000).
pub proof fn lemma_stamp_closes_cooldown(now: int, later: int)
    requires
        0 <= now <= later,
        later < now + COOLDOWN_MINUTES as int,
        ({
            let yd = crate::timefmt::civil_year_of_days(
                1970,
                now / (crate::timefmt::MINUTES_PER_DAY as int),
            );
            yd.1 < crate::timefmt::days_in_year(yd.0)
        }),
    ensures
        !cooldown_elapsed(format_datetime_spec(now), later),
{
    crate::timefmt::lemma_format_parse_round_trip(now);
    assert(format_datetime_spec(now).len() == 19);
}

/// Law: the count of the ready queue is never negative.
pub proof fn lemma_count_ready_nonneg(s: Seq<ProgressRecord>)
    ensures
        count_ready(s) >= 0,
    decreases s.len(),
{
    if s.len() > 0 {
        lemma_count_ready_nonneg(s.drop_last());
    }
}

/// Law: a batch release leaves the ready queue non-empty, so a second
/// check-in right after a release is a no-op (the awaiting-drain gate).
pub proof fn lemma_unlock_fills_ready_queue(
    cat: Catalog,
    old_records: Seq<ProgressRecord>,
    new_records: Seq<ProgressRecord>,
    sel: Seq<usize>,
    now: int,
)
    requires
        appended_fresh(cat, old_records, new_records, sel, now, false),
        sel.len() > 0,
    ensures
        count_ready(new_records) > 0,
{
    let added = new_records.subrange(old_records.len() as int, new_records.len() as int);
    assert(new_records =~= old_records + added);
    lemma_count_ready_append(old_records, added);
    lemma_count_ready_nonneg(old_records);
    lemma_count_ready_nonneg(added.drop_last());
    let a = sel.len() - 1;
    assert(new_records[old_records.len() + a] == fresh_record_spec(
        cat.items@[sel[a] as int].character.id,
        now,
        false,
    ));
    assert(added.last() == new_records[old_records.len() + a]);
    assert(!added.last().introduced);
}

} // verus!
