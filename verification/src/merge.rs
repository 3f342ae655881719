//! Joining dictionary entries with frequency data to build the catalog
//! rows.

use vstd::prelude::*;
use vstd::string::StrSliceExecFns;
use crate::cedict::CedictEntry;
use crate::subtlex::FrequencyTable;

verus! {

/// A dictionary entry together with its frequency rank, when one is known.
#[derive(Debug, Clone)]
pub struct EnrichedEntry {
    pub cedict: CedictEntry,
    pub frequency_rank: Option<i32>,
}

/// Attach to every dictionary entry the rank its simplified form has in
/// one frequency table; entries the table does not know get `None`.
#[verifier::loop_isolation(false)]
pub fn merge_cedict_with_frequency(cedict_entries: Vec<CedictEntry>, frequency_map:
    &FrequencyTable) -> (r: Vec<EnrichedEntry>)
    requires
        frequency_map.wf(),
    ensures
        r@.len() == cedict_entries@.len(),
        forall|i: int|
            0 <= i < r@.len() ==> (#[trigger] r@[i]).cedict == cedict_entries@[i],
        forall|i: int|
            0 <= i < r@.len() ==> ((#[trigger] r@[i]).frequency_rank is Some
                <==> frequency_map.contains_item(cedict_entries@[i].simplified@)),
        forall|i: int|
            0 <= i < r@.len() ==> ((#[trigger] r@[i]).frequency_rank matches Some(rk) ==> rk
                as int == frequency_map.rank_of_item(cedict_entries@[i].simplified@)),
{
    let ghost orig = cedict_entries@;
    let mut src = cedict_entries;
    let mut r: Vec<EnrichedEntry> = Vec::new();
    while src.len() > 0
        invariant
            r@.len() + src@.len() == orig.len(),
            src@ == orig.skip(r@.len() as int),
            forall|i: int| 0 <= i < r@.len() ==> (#[trigger] r@[i]).cedict == orig[i],
            forall|i: int|
                0 <= i < r@.len() ==> ((#[trigger] r@[i]).frequency_rank is Some
                    <==> frequency_map.contains_item(orig[i].simplified@)),
            forall|i: int|
                0 <= i < r@.len() ==> ((#[trigger] r@[i]).frequency_rank matches Some(rk) ==> rk
                    as int == frequency_map.rank_of_item(orig[i].simplified@)),
        decreases src@.len(),
    {
        let ghost k = r@.len() as int;
        let entry = src.remove(0);
        proof {
            assert(entry == orig[k]);
            assert(src@ =~= orig.skip(k + 1));
        }
        let freq_rank = frequency_map.lookup_rank(entry.simplified.as_str());
        r.push(EnrichedEntry { cedict: entry, frequency_rank: freq_rank });
    }
    r
}

/// Attach frequency ranks, keeping character and word frequencies apart:
/// a single-character simplified form is looked up in the character table,
/// a longer one in the word table.
#[verifier::loop_isolation(false)]
pub fn merge_cedict_with_frequency_separated(
    cedict_entries: Vec<CedictEntry>,
    char_freq: &FrequencyTable,
    word_freq: &FrequencyTable,
) -> (r: Vec<EnrichedEntry>)
    requires
        char_freq.wf(),
        word_freq.wf(),
    ensures
        r@.len() == cedict_entries@.len(),
        forall|i: int|
            0 <= i < r@.len() ==> (#[trigger] r@[i]).cedict == cedict_entries@[i],
        forall|i: int|
            #![trigger r@[i]]
            0 <= i < r@.len() ==> {
                let table = if cedict_entries@[i].simplified@.len() == 1 {
                    *char_freq
                } else {
                    *word_freq
                };
                &&& (r@[i].frequency_rank is Some <==> table.contains_item(
                    cedict_entries@[i].simplified@,
                ))
                &&& (r@[i].frequency_rank matches Some(rk) ==> rk as int == table.rank_of_item(
                    cedict_entries@[i].simplified@,
                ))
            },
{
    let ghost orig = cedict_entries@;
    let mut src = cedict_entries;
    let mut r: Vec<EnrichedEntry> = Vec::new();
    while src.len() > 0
        invariant
            r@.len() + src@.len() == orig.len(),
            src@ == orig.skip(r@.len() as int),
            forall|i: int| 0 <= i < r@.len() ==> (#[trigger] r@[i]).cedict == orig[i],
            forall|i: int|
                #![trigger r@[i]]
                0 <= i < r@.len() ==> {
                    let table = if orig[i].simplified@.len() == 1 {
                        *char_freq
                    } else {
                        *word_freq
                    };
                    &&& (r@[i].frequency_rank is Some <==> table.contains_item(
                        orig[i].simplified@,
                    ))
                    &&& (r@[i].frequency_rank matches Some(rk) ==> rk as int
                        == table.rank_of_item(orig[i].simplified@))
                },
        decreases src@.len(),
    {
        let ghost k = r@.len() as int;
        let entry = src.remove(0);
        proof {
            assert(entry == orig[k]);
            assert(src@ =~= orig.skip(k + 1));
        }
        let freq_rank = if entry.simplified.as_str().unicode_len() == 1 {
            char_freq.lookup_rank(entry.simplified.as_str())
        } else {
            word_freq.lookup_rank(entry.simplified.as_str())
        };
        r.push(EnrichedEntry { cedict: entry, frequency_rank: freq_rank });
    }
    r
}

} // verus!
