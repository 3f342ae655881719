//! The introduction scorer: a priority score for every catalog item, lower
//! meaning earlier. Scores are held in hundredths of a frequency-rank unit,
//! so the word tie-break term (a hundredth of the word's own rank per the
//! design) is exact integer arithmetic.

use vstd::prelude::*;
use crate::catalog::{Catalog, CatalogItem};

verus! {

/// Words with no resolvable components fall back past every ordinary rank:
/// this many rank units are added ahead of the word's own rank.
pub const FALLBACK_RANK_BASE: i64 = 100000;

/// One frequency-rank unit, in score units.
pub const SCORE_UNIT: i64 = 100;

/// Largest element of a sequence (0 for an empty one).
pub open spec fn seq_max(s: Seq<int>) -> int
    decreases s.len(),
{
    if s.len() == 0 {
        0
    } else {
        let m = seq_max(s.drop_last());
        if s.last() > m || s.len() == 1 {
            s.last()
        } else {
            m
        }
    }
}

/// The ranks of those component ids that resolve in the catalog, in order;
/// ids the catalog does not know are silently skipped.
pub open spec fn resolved_ranks(cat: Catalog, ids: Seq<i32>) -> Seq<int>
    decreases ids.len(),
{
    if ids.len() == 0 {
        Seq::empty()
    } else {
        let rest = resolved_ranks(cat, ids.drop_last());
        if cat.contains_id(ids.last()) {
            rest.push(cat.rank_of_id(ids.last()))
        } else {
            rest
        }
    }
}

/// The introduction score of an item, in hundredths of a rank unit:
/// - single character: its frequency rank;
/// - word with at least one resolved component: the worst resolved component
///   rank, plus a hundredth of the word's own rank as a tie-break;
/// - word with none: a fallback far past every ordinary rank.
pub open spec fn introduction_score_spec(cat: Catalog, item: CatalogItem) -> int {
    if !item.character.is_word {
        item.character.frequency_rank * (SCORE_UNIT as int)
    } else {
        let ranks = resolved_ranks(cat, item.component_ids@);
        if ranks.len() > 0 {
            seq_max(ranks) * (SCORE_UNIT as int) + item.character.frequency_rank
        } else {
            (FALLBACK_RANK_BASE as int + item.character.frequency_rank) * (SCORE_UNIT as int)
        }
    }
}

/// Calculate the introduction score of a catalog item; lower = introduced
/// earlier. A word's score always sits strictly above the score of each of
/// its resolved components (`lemma_word_score_exceeds_components`).
pub fn calculate_introduction_score(cat: &Catalog, item: &CatalogItem) -> (score: i64)
    requires
        cat.wf(),
        item.character.frequency_rank >= 1,
    ensures
        score as int == introduction_score_spec(*cat, *item),
{
    if !item.character.is_word {
        return (item.character.frequency_rank as i64) * SCORE_UNIT;
    }
    let n = item.component_ids.len();
    let mut i: usize = 0;
    let mut found: bool = false;
    let mut max_rank: i64 = 0;
    while i < n
        invariant
            cat.wf(),
            n == item.component_ids@.len(),
            0 <= i <= n,
            found <==> resolved_ranks(*cat, item.component_ids@.take(i as int)).len() > 0,
            found ==> max_rank as int == seq_max(
                resolved_ranks(*cat, item.component_ids@.take(i as int)),
            ),
            found ==> 1 <= max_rank <= i32::MAX,
            !found ==> max_rank == 0,
        decreases n - i,
    {
        let ghost prefix = item.component_ids@.take(i as int);
        let ghost prefix1 = item.component_ids@.take(i as int + 1);
        proof {
            assert(prefix1.drop_last() =~= prefix);
            assert(prefix1.last() == item.component_ids@[i as int]);
        }
        match cat.lookup_rank(item.component_ids[i]) {
            Some(rk) => {
                proof {
                    let ranks1 = resolved_ranks(*cat, prefix1);
                    assert(ranks1.drop_last() == resolved_ranks(*cat, prefix));
                    assert(ranks1.last() == cat.rank_of_id(item.component_ids@[i as int]));
                    assert(cat.rank_of_id(item.component_ids@[i as int]) >= 1) by {
                        let w = cat.index_of_id(item.component_ids@[i as int]);
                        assert(cat.items@[w].character.frequency_rank >= 1);
                    }
                }
                if !found || (rk as i64) > max_rank {
                    max_rank = rk as i64;
                }
                found = true;
            },
            None => {
                proof {
                    assert(resolved_ranks(*cat, prefix1) == resolved_ranks(*cat, prefix));
                }
            },
        }
        i = i + 1;
    }
    proof {
        assert(item.component_ids@.take(n as int) =~= item.component_ids@);
    }
    if found {
        max_rank * SCORE_UNIT + (item.character.frequency_rank as i64)
    } else {
        (FALLBACK_RANK_BASE + (item.character.frequency_rank as i64)) * SCORE_UNIT
    }
}

/// Every element of a sequence is at most its maximum.
pub proof fn lemma_seq_max_ge(s: Seq<int>, k: int)
    requires
        0 <= k < s.len(),
    ensures
        s[k] <= seq_max(s),
    decreases s.len(),
{
    if k < s.len() - 1 {
        lemma_seq_max_ge(s.drop_last(), k);
    }
}

/// A component id that resolves contributes its rank to the resolved list.
pub proof fn lemma_resolved_contains(cat: Catalog, ids: Seq<i32>, k: int)
    requires
        0 <= k < ids.len(),
        cat.contains_id(ids[k]),
    ensures
        resolved_ranks(cat, ids).contains(cat.rank_of_id(ids[k])),
    decreases ids.len(),
{
    if k < ids.len() - 1 {
        lemma_resolved_contains(cat, ids.drop_last(), k);
        let rest = resolved_ranks(cat, ids.drop_last());
        let j = choose|j: int| 0 <= j < rest.len() && rest[j] == cat.rank_of_id(ids[k]);
        assert(resolved_ranks(cat, ids)[j] == cat.rank_of_id(ids[k]));
    } else {
        let all = resolved_ranks(cat, ids);
        assert(all.last() == cat.rank_of_id(ids[k]));
    }
}

/// Law: a word whose component list resolves at least the `k`-th id scores
/// strictly higher than that component does as a single character, so a
/// word can never rank ahead of any of its known prerequisites.
pub proof fn lemma_word_score_exceeds_components(cat: Catalog, item: CatalogItem, k: int)
    requires
        cat.wf(),
        item.character.is_word,
        item.character.frequency_rank >= 1,
        0 <= k < item.component_ids@.len(),
        cat.contains_id(item.component_ids@[k]),
    ensures
        introduction_score_spec(cat, item) > cat.rank_of_id(item.component_ids@[k]) * (
        SCORE_UNIT as int),
{
    let id = item.component_ids@[k];
    let ranks = resolved_ranks(cat, item.component_ids@);
    lemma_resolved_contains(cat, item.component_ids@, k);
    let j = choose|j: int| 0 <= j < ranks.len() && ranks[j] == cat.rank_of_id(id);
    lemma_seq_max_ge(ranks, j);
}

} // verus!
