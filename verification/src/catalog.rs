//! The read-only item catalog: characters and words with frequency ranks,
//! and for words the ordered list of component character ids.

use vstd::prelude::*;
use vstd::string::StrSliceExecFns;

verus! {

/// One catalog entry as the storage layer hands it out: a single character
/// or a multi-character word, with its frequency rank (lower = more common).
#[derive(Debug, Clone)]
pub struct Character {
    pub id: i32,
    pub character: String,
    pub simplified: String,
    pub traditional: Option<String>,
    pub mandarin_pinyin: String,
    pub definition: String,
    pub frequency_rank: i32,
    pub is_word: bool,
}

impl Character {
    /// A field-wise copy; unlike the derived `Clone`, its contract says the
    /// copy equals the original.
    pub fn duplicate(&self) -> (r: Character)
        ensures
            r == *self,
    {
        Character {
            id: self.id,
            character: self.character.clone(),
            simplified: self.simplified.clone(),
            traditional: match &self.traditional {
                Some(t) => Some(t.clone()),
                None => None,
            },
            mandarin_pinyin: self.mandarin_pinyin.clone(),
            definition: self.definition.clone(),
            frequency_rank: self.frequency_rank,
            is_word: self.is_word,
        }
    }
}

/// A catalog item together with its prerequisite relation: for a word, the
/// ids of its component characters (empty when unresolved or not a word).
#[derive(Debug, Clone)]
pub struct CatalogItem {
    pub character: Character,
    pub component_ids: Vec<i32>,
}

/// The immutable catalog the scheduler reads.
#[derive(Debug)]
pub struct Catalog {
    pub items: Vec<CatalogItem>,
}

/// Catalog index `i` is a single-character item whose text is exactly `c`.
pub open spec fn char_item_match(cat: Catalog, c: char, i: int) -> bool {
    &&& 0 <= i < cat.items@.len()
    &&& !cat.items@[i].character.is_word
    &&& cat.items@[i].character.character@ == seq![c]
}

/// Some single-character item has exactly the text `c`.
pub open spec fn has_char_item(cat: Catalog, c: char) -> bool {
    exists|i: int| #[trigger] char_item_match(cat, c, i)
}

/// Every character of `word` has a matching single-character item.
pub open spec fn word_resolvable(cat: Catalog, word: Seq<char>) -> bool {
    forall|k: int| 0 <= k < word.len() ==> has_char_item(cat, #[trigger] word[k])
}

/// Some single-character item with text `c` carries the id `id`.
pub open spec fn resolves_char(cat: Catalog, c: char, id: i32) -> bool {
    exists|i: int| #[trigger] char_item_match(cat, c, i) && cat.items@[i].character.id == id
}

impl Catalog {
    /// Well-formed: ids are unique and every frequency rank is at least 1.
    pub open spec fn wf(self) -> bool {
        &&& forall|i: int, j: int|
            0 <= i < j < self.items@.len() ==> self.items@[i].character.id
                != self.items@[j].character.id
        &&& forall|i: int|
            0 <= i < self.items@.len() ==> #[trigger] self.items@[i].character.frequency_rank >= 1
    }

    pub open spec fn contains_id(self, id: i32) -> bool {
        exists|i: int| 0 <= i < self.items@.len() && self.items@[i].character.id == id
    }

    /// The index of the item with this id (unique when the catalog is
    /// well-formed).
    pub open spec fn index_of_id(self, id: i32) -> int {
        choose|i: int| 0 <= i < self.items@.len() && self.items@[i].character.id == id
    }

    /// The frequency rank of the item with this id.
    pub open spec fn rank_of_id(self, id: i32) -> int {
        self.items@[self.index_of_id(id)].character.frequency_rank as int
    }

    /// Find the position of the item with the given id.
    pub fn find_index(&self, id: i32) -> (r: Option<usize>)
        ensures
            r is Some <==> self.contains_id(id),
            r matches Some(i) ==> 0 <= i < self.items@.len() && self.items@[i as int].character.id
                == id,
    {
        let n = self.items.len();
        let mut i: usize = 0;
        while i < n
            invariant
                n == self.items@.len(),
                0 <= i <= n,
                forall|j: int| 0 <= j < i ==> self.items@[j].character.id != id,
            decreases n - i,
        {
            if self.items[i].character.id == id {
                return Some(i);
            }
            i = i + 1;
        }
        None
    }

    /// Look up the frequency rank of an item by id.
    pub fn lookup_rank(&self, id: i32) -> (r: Option<i32>)
        requires
            self.wf(),
        ensures
            r is Some <==> self.contains_id(id),
            r matches Some(rk) ==> rk as int == self.rank_of_id(id),
    {
        match self.find_index(id) {
            Some(i) => {
                proof {
                    let w = self.index_of_id(id);
                    assert(self.items@[w].character.id == id);
                    assert(w == i as int);
                }
                Some(self.items[i].character.frequency_rank)
            },
            None => None,
        }
    }

    /// Find the position of a single-character item whose text is exactly
    /// the character `c`.
    #[verifier::loop_isolation(false)]
    pub fn find_char_item(&self, c: char) -> (r: Option<usize>)
        ensures
            r matches Some(i) ==> char_item_match(*self, c, i as int),
            r is None ==> forall|i: int| !char_item_match(*self, c, i),
    {
        let n = self.items.len();
        let mut i: usize = 0;
        while i < n
            invariant
                0 <= i <= n,
                forall|j: int| 0 <= j < i ==> !char_item_match(*self, c, j),
            decreases n - i,
        {
            let item = &self.items[i];
            if !item.character.is_word {
                let text = item.character.character.as_str();
                if text.unicode_len() == 1 {
                    if text.get_char(0) == c {
                        proof {
                            assert(self.items@[i as int].character.character@ =~= seq![c]);
                        }
                        return Some(i);
                    }
                }
            }
            proof {
                if char_item_match(*self, c, i as int) {
                    assert(self.items@[i as int].character.character@[0] == c);
                }
            }
            i = i + 1;
        }
        None
    }

    /// Resolve a word to the ids of its component characters: one id per
    /// character of the word, each the id of a single-character catalog
    /// item with exactly that text. `None` as soon as any character has no
    /// such item, so a word is either fully resolved or not at all.
    #[verifier::loop_isolation(false)]
    pub fn component_ids_for_word(&self, word: &str) -> (r: Option<Vec<i32>>)
        ensures
            r is Some <==> word_resolvable(*self, word@),
            r matches Some(ids) ==> {
                &&& ids@.len() == word@.len()
                &&& (forall|k: int|
                    0 <= k < word@.len() ==> resolves_char(*self, #[trigger] word@[k], ids@[k]))
            },
    {
        let n = word.unicode_len();
        let mut ids: Vec<i32> = Vec::new();
        let mut k: usize = 0;
        while k < n
            invariant
                0 <= k <= n,
                ids@.len() == k,
                forall|x: int|
                    0 <= x < k ==> resolves_char(*self, #[trigger] word@[x], ids@[x]),
            decreases n - k,
        {
            let c = word.get_char(k);
            let ghost kk = k as int;
            match self.find_char_item(c) {
                Some(i) => {
                    ids.push(self.items[i].character.id);
                    proof {
                        assert(char_item_match(*self, word@[kk], i as int));
                        assert(self.items@[i as int].character.id == ids@[kk]);
                        assert(resolves_char(*self, word@[kk], ids@[kk]));
                    }
                },
                None => {
                    proof {
                        assert(forall|i: int| !char_item_match(*self, word@[kk], i));
                        assert(!has_char_item(*self, word@[kk]));
                        assert(!word_resolvable(*self, word@));
                    }
                    return None;
                },
            }
            k = k + 1;
        }
        proof {
            assert forall|x: int| 0 <= x < word@.len() implies has_char_item(
                *self,
                #[trigger] word@[x],
            ) by {
                assert(resolves_char(*self, word@[x], ids@[x]));
                let i = choose|i: int|
                    #[trigger] char_item_match(*self, word@[x], i)
                        && self.items@[i].character.id == ids@[x];
                assert(char_item_match(*self, word@[x], i));
            }
            assert(word_resolvable(*self, word@));
        }
        Some(ids)
    }

    /// Look up an item by id, as the catalog's `getItem`.
    pub fn get_character_by_id(&self, id: i32) -> (r: Option<&CatalogItem>)
        ensures
            r is Some <==> self.contains_id(id),
            r matches Some(item) ==> exists|i: int|
                0 <= i < self.items@.len() && self.items@[i] == *item
                    && self.items@[i].character.id == id,
    {
        match self.find_index(id) {
            Some(i) => Some(&self.items[i]),
            None => None,
        }
    }
}

} // verus!
