//! Parsing SUBTLEX-CH frequency lists: GBK-encoded, tab-delimited text with
//! three header lines, one item (character or word) per line, ranked by
//! position.

use vstd::prelude::*;
use vstd::string::StrSliceExecFns;
use crate::strutil::{is_digit, digit_val, check_digit, digit_value, str_eq, first_at_from,
    lemma_first_at_from, trim_seq};
use crate::cedict::{trimmed_segment};

verus! {

/// One frequency-list row: the item, its rank (1-based position in the
/// list, lower = more common), its raw corpus count, and whether the list
/// is a word list.
#[derive(Debug, Clone)]
pub struct FrequencyData {
    pub item: String,
    pub frequency_rank: i32,
    pub count: i32,
    pub is_word: bool,
}

/// A frequency lookup table with one entry per distinct item.
#[derive(Debug)]
pub struct FrequencyTable {
    pub entries: Vec<FrequencyData>,
}

/// One table row as plain values: item text, rank, count.
pub open spec fn entry_view(f: FrequencyData) -> (Seq<char>, int, int) {
    (f.item@, f.frequency_rank as int, f.count as int)
}

/// The whole table as plain rows.
pub open spec fn table_view(entries: Seq<FrequencyData>) -> Seq<(Seq<char>, int, int)> {
    entries.map_values(|f: FrequencyData| entry_view(f))
}

/// Some row carries this item text.
pub open spec fn rows_has(acc: Seq<(Seq<char>, int, int)>, item: Seq<char>) -> bool {
    exists|e: int| 0 <= e < acc.len() && (#[trigger] acc[e]).0 == item
}

/// The position of the row carrying this item text.
pub open spec fn rows_index(acc: Seq<(Seq<char>, int, int)>, item: Seq<char>) -> int {
    choose|e: int| 0 <= e < acc.len() && (#[trigger] acc[e]).0 == item
}

/// Insert a row, replacing the row of the same item if one is there.
pub open spec fn upsert(
    acc: Seq<(Seq<char>, int, int)>,
    item: Seq<char>,
    rank: int,
    cnt: int,
) -> Seq<(Seq<char>, int, int)> {
    if rows_has(acc, item) {
        acc.update(rows_index(acc, item), (item, rank, cnt))
    } else {
        acc.push((item, rank, cnt))
    }
}

impl FrequencyTable {
    /// Well-formed: items are distinct.
    pub open spec fn wf(self) -> bool {
        forall|i: int, j: int|
            0 <= i < j < self.entries@.len() ==> (#[trigger] self.entries@[i]).item@ != (
            #[trigger] self.entries@[j]).item@
    }

    pub open spec fn contains_item(self, key: Seq<char>) -> bool {
        exists|i: int| 0 <= i < self.entries@.len() && (#[trigger] self.entries@[i]).item@ == key
    }

    pub open spec fn index_of_item(self, key: Seq<char>) -> int {
        choose|i: int| 0 <= i < self.entries@.len() && (#[trigger] self.entries@[i]).item@ == key
    }

    /// The rank stored for an item.
    pub open spec fn rank_of_item(self, key: Seq<char>) -> int {
        self.entries@[self.index_of_item(key)].frequency_rank as int
    }

    /// An empty table.
    pub fn new() -> (r: FrequencyTable)
        ensures
            r.entries@.len() == 0,
            r.wf(),
    {
        FrequencyTable { entries: Vec::new() }
    }

    /// Find the entry for an item.
    #[verifier::loop_isolation(false)]
    pub fn find(&self, key: &str) -> (r: Option<usize>)
        ensures
            r is Some <==> self.contains_item(key@),
            r matches Some(i) ==> 0 <= i < self.entries@.len() && self.entries@[
                i as int
            ].item@ == key@,
    {
        let n = self.entries.len();
        let mut i: usize = 0;
        while i < n
            invariant
                0 <= i <= n,
                forall|j: int| 0 <= j < i ==> (#[trigger] self.entries@[j]).item@ != key@,
            decreases n - i,
        {
            if str_eq(self.entries[i].item.as_str(), key) {
                return Some(i);
            }
            i = i + 1;
        }
        None
    }

    /// Look up an item's rank, as the scorer and the merge step do.
    pub fn lookup_rank(&self, key: &str) -> (r: Option<i32>)
        requires
            self.wf(),
        ensures
            r is Some <==> self.contains_item(key@),
            r matches Some(rk) ==> rk as int == self.rank_of_item(key@),
    {
        match self.find(key) {
            Some(i) => {
                proof {
                    let w = self.index_of_item(key@);
                    assert(self.entries@[w].item@ == key@);
                    assert(w == i as int);
                }
                Some(self.entries[i].frequency_rank)
            },
            None => None,
        }
    }

    /// Insert an entry, replacing any existing entry for the same item.
    #[verifier::loop_isolation(false)]
    fn insert(&mut self, entry: FrequencyData)
        requires
            old(self).wf(),
        ensures
            final(self).wf(),
            table_view(final(self).entries@) == upsert(
                table_view(old(self).entries@),
                entry.item@,
                entry.frequency_rank as int,
                entry.count as int,
            ),
            final(self).entries@.len() <= old(self).entries@.len() + 1,
            forall|e: int|
                0 <= e < final(self).entries@.len() ==> (#[trigger] final(self).entries@[e]
                    == entry || (e < old(self).entries@.len() && final(self).entries@[e] == old(
                    self,
                ).entries@[e])),
    {
        let ghost pre = self.entries@;
        let n = self.entries.len();
        let mut i: usize = 0;
        while i < n
            invariant
                0 <= i <= n,
                n == self.entries@.len(),
                self.wf(),
                self == old(self),
                forall|j: int| 0 <= j < i ==> (#[trigger] self.entries@[j]).item@ != entry.item@,
            decreases n - i,
        {
            if str_eq(self.entries[i].item.as_str(), entry.item.as_str()) {
                let ghost ii = i as int;
                self.entries[i] = entry;
                proof {
                    assert forall|a: int, b: int|
                        0 <= a < b < self.entries@.len() implies (#[trigger] self.entries@[
                        a]).item@ != (#[trigger] self.entries@[b]).item@ by {
                        assert(pre[a].item@ != pre[b].item@);
                    }
                    assert(table_view(pre)[ii] == entry_view(pre[ii]));
                    assert(rows_has(table_view(pre), entry.item@));
                    let w = rows_index(table_view(pre), entry.item@);
                    assert(table_view(pre)[w].0 == entry.item@);
                    assert(pre[w].item@ == entry.item@);
                    assert(w == ii);
                    assert forall|x: int|
                        0 <= x < self.entries@.len() implies table_view(self.entries@)[x]
                        == table_view(pre).update(ii, entry_view(entry))[x] by {
                        assert(table_view(self.entries@)[x] == entry_view(self.entries@[x]));
                        if x != ii {
                            assert(self.entries@[x] == pre[x]);
                            assert(table_view(pre)[x] == entry_view(pre[x]));
                        }
                    }
                    assert(table_view(self.entries@) =~= table_view(pre).update(
                        ii,
                        entry_view(entry),
                    ));
                }
                return ;
            }
            i = i + 1;
        }
        self.entries.push(entry);
        proof {
            assert forall|e: int| 0 <= e < table_view(pre).len() implies (#[trigger] table_view(
                pre,
            )[e]).0 != entry.item@ by {
                assert(table_view(pre)[e] == entry_view(pre[e]));
                assert(pre[e].item@ != entry.item@);
            }
            assert(!rows_has(table_view(pre), entry.item@));
            assert forall|x: int|
                0 <= x < self.entries@.len() implies table_view(self.entries@)[x] == table_view(
                pre,
            ).push(entry_view(entry))[x] by {
                assert(table_view(self.entries@)[x] == entry_view(self.entries@[x]));
                if x < pre.len() {
                    assert(self.entries@[x] == pre[x]);
                    assert(table_view(pre)[x] == entry_view(pre[x]));
                }
            }
            assert(table_view(self.entries@) =~= table_view(pre).push(entry_view(entry)));
            assert(self.entries@[self.entries@.len() - 1].item@ == entry.item@);
        }
    }
}

/// Relies on `encoding_rs::GBK.decode`: the decoded text is a pure function
/// of the input bytes; decoding nothing yields nothing.
pub uninterp spec fn gbk_decode(bytes: Seq<u8>) -> Seq<char>;

/// Decode GBK (or UTF-8) bytes to text.
///
/// Relies on `encoding_rs::GBK.decode`, which maps a byte sequence to the
/// decoded string, with replacement characters for malformed input.
#[verifier::external_body]
fn decode_gbk_bytes(bytes: &[u8]) -> (r: String)
    ensures
        r@ == gbk_decode(bytes@),
        bytes@.len() == 0 ==> r@.len() == 0,
{
    let (text, _, _) = encoding_rs::GBK.decode(bytes);
    text.into_owned()
}

/// The pieces of `text`, split on newline characters, in order; the piece
/// after the last newline is kept only when non-empty, as a line reader
/// keeps it.
pub open spec fn split_from(text: Seq<char>, start: int) -> Seq<Seq<char>>
    decreases text.len() - start,
{
    if start < 0 || start >= text.len() {
        Seq::empty()
    } else {
        let k0 = first_at_from(text, '\n', start);
        let k = if k0 < start {
            start
        } else {
            k0
        };
        if k >= text.len() {
            seq![text.subrange(start, text.len() as int)]
        } else {
            seq![text.subrange(start, k)] + split_from(text, k + 1)
        }
    }
}

/// Split text into lines on `'\n'`.
#[verifier::loop_isolation(false)]
pub fn split_lines(text: &str) -> (lines: Vec<String>)
    ensures
        lines.deep_view() == split_from(text@, 0),
{
    let n = text.unicode_len();
    let mut lines: Vec<String> = Vec::new();
    let mut start: usize = 0;
    let mut i: usize = 0;
    while i < n
        invariant
            0 <= start <= i <= n,
            n == text@.len(),
            forall|k: int| start <= k < i ==> #[trigger] text@[k] != '\n',
            split_from(text@, 0) == lines.deep_view() + split_from(text@, start as int),
        decreases n - i,
    {
        if text.get_char(i) == '\n' {
            let ghost pre_lines = lines.deep_view();
            let piece = text.substring_char(start, i);
            let mut owned = String::new();
            owned.append(piece);
            lines.push(owned);
            proof {
                lemma_first_at_from(text@, '\n', start as int, i as int);
                assert(split_from(text@, start as int) == seq![
                    text@.subrange(start as int, i as int),
                ] + split_from(text@, i as int + 1));
                assert(owned@ == text@.subrange(start as int, i as int));
                assert(lines.deep_view() =~= pre_lines.push(owned@)) by {
                    assert forall|x: int|
                        0 <= x < lines@.len() implies lines.deep_view()[x] == pre_lines.push(
                        owned@,
                    )[x] by {
                        if x < pre_lines.len() {
                            assert(lines@[x] == lines@[x]);
                        }
                    }
                }
                assert(pre_lines + (seq![owned@] + split_from(text@, i as int + 1))
                    =~= pre_lines.push(owned@) + split_from(text@, i as int + 1));
            }
            start = i + 1;
        }
        i = i + 1;
    }
    if i > start {
        let ghost pre_lines = lines.deep_view();
        let piece = text.substring_char(start, i);
        let mut owned = String::new();
        owned.append(piece);
        lines.push(owned);
        proof {
            lemma_first_at_from(text@, '\n', start as int, n as int);
            assert(split_from(text@, start as int) == seq![
                text@.subrange(start as int, n as int),
            ]);
            assert(owned@ == text@.subrange(start as int, n as int));
            assert(lines.deep_view() =~= pre_lines.push(owned@)) by {
                assert forall|x: int|
                    0 <= x < lines@.len() implies lines.deep_view()[x] == pre_lines.push(
                    owned@,
                )[x] by {
                    if x < pre_lines.len() {
                        assert(lines@[x] == lines@[x]);
                    }
                }
            }
            assert(pre_lines + seq![owned@] =~= pre_lines.push(owned@));
        }
    } else {
        proof {
            assert(split_from(text@, start as int) =~= Seq::<Seq<char>>::empty());
        }
    }
    proof {
        assert(split_from(text@, 0) =~= lines.deep_view());
    }
    lines
}

/// The numeric value of a digit string, most significant digit first.
pub open spec fn digits_value(s: Seq<char>) -> int
    decreases s.len(),
{
    if s.len() == 0 {
        0
    } else {
        digits_value(s.drop_last()) * 10 + digit_val(s.last())
    }
}

/// Whether `s` is a well-formed decimal integer: an optional leading `-`
/// followed by at least one digit.
pub open spec fn is_decimal(s: Seq<char>) -> bool {
    if s.len() == 0 {
        false
    } else if s[0] == '-' {
        s.len() >= 2 && (forall|k: int| 1 <= k < s.len() ==> is_digit(#[trigger] s[k]))
    } else {
        forall|k: int| 0 <= k < s.len() ==> is_digit(#[trigger] s[k])
    }
}

/// The value a decimal string denotes.
pub open spec fn decimal_value(s: Seq<char>) -> int {
    if s.len() > 0 && s[0] == '-' {
        -digits_value(s.subrange(1, s.len() as int))
    } else {
        digits_value(s)
    }
}

/// Parse an `i32`, yielding 0 for anything malformed or out of range, as
/// the frequency columns are read.
#[verifier::loop_isolation(false)]
pub fn parse_i32_or_zero(s: &str) -> (r: i32)
    ensures
        is_decimal(s@) && i32::MIN <= decimal_value(s@) <= i32::MAX ==> r as int == decimal_value(
            s@,
        ),
        !(is_decimal(s@) && i32::MIN <= decimal_value(s@) <= i32::MAX) ==> r == 0,
{
    let n = s.unicode_len();
    if n == 0 {
        return 0;
    }
    let negative = s.get_char(0) == '-';
    let first: usize = if negative {
        1
    } else {
        0
    };
    if first >= n {
        return 0;
    }
    let mut acc: i64 = 0;
    let mut i = first;
    while i < n
        invariant
            first <= i <= n,
            n == s@.len(),
            forall|k: int| first <= k < i ==> is_digit(#[trigger] s@[k]),
            acc as int == digits_value(s@.subrange(first as int, i as int)),
            0 <= acc <= 0x8000_0000i64,
        decreases n - i,
    {
        let c = s.get_char(i);
        if !check_digit(c) {
            return 0;
        }
        proof {
            assert(s@.subrange(first as int, i as int + 1).drop_last() =~= s@.subrange(
                first as int,
                i as int,
            ));
            assert(s@.subrange(first as int, i as int + 1).last() == s@[i as int]);
        }
        let d = digit_value(c);
        let next = acc * 10 + (d as i64);
        if next > 0x8000_0000i64 {
            // The value cannot fit an `i32` whatever follows.
            proof {
                assert(digits_value(s@.subrange(first as int, i as int + 1)) == next);
                lemma_digits_grow(s@, first as int, i as int + 1, next as int);
                if is_decimal(s@) {
                    assert forall|k: int| first <= k < s@.len() implies is_digit(
                        #[trigger] s@[k],
                    ) by {}
                    assert(digits_value(s@.subrange(first as int, s@.len() as int)) >= next);
                    if negative {
                        assert(s@.subrange(1, s@.len() as int) == s@.subrange(
                            first as int,
                            s@.len() as int,
                        ));
                    } else {
                        assert(s@.subrange(0, s@.len() as int) =~= s@);
                        assert(digits_value(s@) >= next) by {
                            assert(digits_value(s@.subrange(0, s@.len() as int)) >= next);
                        }
                    }
                }
            }
            return 0;
        }
        acc = next;
        i = i + 1;
    }
    proof {
        assert(s@.subrange(first as int, n as int) =~= s@.subrange(first as int, s@.len() as int));
        if negative {
            assert(s@.subrange(1, s@.len() as int) == s@.subrange(first as int, n as int));
            assert(is_decimal(s@));
            assert(decimal_value(s@) == -(acc as int));
        } else {
            assert(s@.subrange(0, n as int) =~= s@);
            assert(is_decimal(s@));
            assert(decimal_value(s@) == acc as int);
        }
    }
    if negative {
        let v = -acc;
        if v < (i32::MIN as i64) {
            return 0;
        }
        v as i32
    } else {
        if acc > (i32::MAX as i64) {
            return 0;
        }
        acc as i32
    }
}

/// Once a digit prefix reaches `bound`, every longer digit string keeps the
/// value at or above it.
proof fn lemma_digits_grow(s: Seq<char>, first: int, upto: int, bound: int)
    requires
        0 <= first <= upto <= s.len(),
        digits_value(s.subrange(first, upto)) >= bound,
        bound >= 0,
        forall|k: int| first <= k < upto ==> is_digit(#[trigger] s[k]),
    ensures
        forall|e: int|
            upto <= e <= s.len() && (forall|k: int| first <= k < e ==> is_digit(#[trigger] s[k]))
                ==> digits_value(#[trigger] s.subrange(first, e)) >= bound,
    decreases s.len() - upto,
{
    if upto < s.len() {
        if is_digit(s[upto]) {
            assert(s.subrange(first, upto + 1).drop_last() =~= s.subrange(first, upto));
            assert(s.subrange(first, upto + 1).last() == s[upto]);
            assert(digits_value(s.subrange(first, upto + 1)) >= bound) by {
                assert(digit_val(s[upto]) >= 0);
                assert(digits_value(s.subrange(first, upto)) * 10 >= bound) by (nonlinear_arith)
                    requires
                        digits_value(s.subrange(first, upto)) >= bound,
                        bound >= 0,
                {}
            }
            lemma_digits_grow(s, first, upto + 1, bound);
        }
        assert forall|e: int|
            upto <= e <= s.len() && (forall|k: int| first <= k < e ==> is_digit(#[trigger] s[k]))
                implies digits_value(#[trigger] s.subrange(first, e)) >= bound by {
            if e > upto {
                assert(is_digit(s[upto]));
            }
        }
    }
}

/// How many lines at the head of the file are metadata, not rows.
pub const SUBTLEX_HEADER_LINES: usize = 3;

/// What one line contributes: the trimmed text before the first tab as the
/// item and the parsed second field as the count — or nothing, for a line
/// without a tab or with a blank item.
pub open spec fn row_of_line(l: Seq<char>) -> Option<(Seq<char>, int)> {
    let tab = first_at_from(l, '\t', 0);
    if tab >= l.len() {
        None
    } else {
        let item = trim_seq(l, 0, tab);
        if item.len() == 0 {
            None
        } else {
            Some(
                (item, parse_count_spec(trim_seq(l, tab + 1, first_at_from(l, '\t', tab + 1)))),
            )
        }
    }
}

/// The count a field denotes: its decimal value when well-formed and in
/// `i32` range, 0 otherwise.
pub open spec fn parse_count_spec(s: Seq<char>) -> int {
    if is_decimal(s) && i32::MIN as int <= decimal_value(s) && decimal_value(s) <= i32::MAX
        as int {
        decimal_value(s)
    } else {
        0
    }
}

/// The whole list parse, line by line from line `i`: header lines and
/// rowless lines contribute nothing; each kept row lands at the running
/// rank (which then advances), replacing any earlier row of the same item.
pub open spec fn subtlex_fold(
    lines: Seq<Seq<char>>,
    i: int,
    rank: int,
    acc: Seq<(Seq<char>, int, int)>,
) -> (Seq<(Seq<char>, int, int)>, int)
    decreases lines.len() - i,
{
    if i < 0 || i >= lines.len() {
        (acc, rank)
    } else {
        let step = if i >= SUBTLEX_HEADER_LINES as int && rank < i32::MAX as int {
            match row_of_line(lines[i]) {
                None => (acc, rank),
                Some(row) => (upsert(acc, row.0, rank, row.1), rank + 1),
            }
        } else {
            (acc, rank)
        };
        subtlex_fold(lines, i + 1, step.1, step.0)
    }
}

/// Parse the rows of a frequency list: three header lines are skipped, and
/// each remaining line with a tab and a non-blank trimmed first field
/// yields an entry — ranked by running position among kept rows, the
/// second field as the count (0 when unreadable); a repeated item keeps
/// one entry, with the later rank and count.
#[verifier::loop_isolation(false)]
pub fn parse_subtlex_lines(lines: &Vec<String>, is_word: bool) -> (table: FrequencyTable)
    ensures
        table.wf(),
        table_view(table.entries@) == subtlex_fold(lines.deep_view(), 0, 1, Seq::empty()).0,
        forall|e: int|
            0 <= e < table.entries@.len() ==> (#[trigger] table.entries@[e]).is_word == is_word,
        forall|e: int|
            0 <= e < table.entries@.len() ==> 1 <= (#[trigger] table.entries@[e]).frequency_rank,
{
    let ghost lv = lines.deep_view();
    let n = lines.len();
    let mut table = FrequencyTable::new();
    let mut rank: i32 = 1;
    let mut i: usize = 0;
    proof {
        assert(table_view(table.entries@) =~= Seq::<(Seq<char>, int, int)>::empty());
    }
    while i < n
        invariant
            0 <= i <= n,
            n == lv.len(),
            lv == lines.deep_view(),
            1 <= rank,
            table.wf(),
            subtlex_fold(lv, i as int, rank as int, table_view(table.entries@)) == subtlex_fold(
                lv,
                0,
                1,
                Seq::empty(),
            ),
            forall|e: int|
                0 <= e < table.entries@.len() ==> (#[trigger] table.entries@[e]).is_word
                    == is_word,
            forall|e: int|
                0 <= e < table.entries@.len() ==> 1 <= (
                #[trigger] table.entries@[e]).frequency_rank,
        decreases n - i,
    {
        let ghost rank0: int = rank as int;
        let ghost view0 = table_view(table.entries@);
        if i >= SUBTLEX_HEADER_LINES && rank < i32::MAX {
            let line = lines[i].as_str();
            proof {
                assert(line@ == lv[i as int]);
            }
            let ln = line.unicode_len();
            // Find the first tab; a line without one is skipped.
            let mut tab: usize = ln;
            let mut j: usize = 0;
            while j < ln
                invariant
                    0 <= j <= ln,
                    tab <= ln,
                    ln == line@.len(),
                    tab == ln ==> forall|k: int| 0 <= k < j ==> #[trigger] line@[k] != '\t',
                    tab < ln ==> line@[tab as int] == '\t' && (forall|k: int|
                        0 <= k < tab ==> #[trigger] line@[k] != '\t'),
                decreases ln - j,
            {
                if tab == ln {
                    if line.get_char(j) == '\t' {
                        tab = j;
                    }
                }
                j = j + 1;
            }
            proof {
                if tab < ln {
                    lemma_first_at_from(line@, '\t', 0, tab as int);
                } else {
                    lemma_first_at_from(line@, '\t', 0, ln as int);
                }
                assert(first_at_from(line@, '\t', 0) == tab as int);
            }
            if tab < ln {
                let item = trimmed_segment(line, 0, tab);
                // The count field runs to the next tab or the end.
                let mut cend: usize = ln;
                let mut k = tab + 1;
                while k < ln
                    invariant
                        tab < ln,
                        tab + 1 <= k <= ln,
                        cend <= ln,
                        ln == line@.len(),
                        cend == ln ==> forall|x: int|
                            tab + 1 <= x < k ==> #[trigger] line@[x] != '\t',
                        cend < ln ==> tab + 1 <= cend && line@[cend as int] == '\t' && (forall|
                            x: int,
                        | tab + 1 <= x < cend ==> #[trigger] line@[x] != '\t'),
                    decreases ln - k,
                {
                    if cend == ln {
                        if line.get_char(k) == '\t' {
                            cend = k;
                        }
                    }
                    k = k + 1;
                }
                proof {
                    if cend < ln {
                        lemma_first_at_from(line@, '\t', tab as int + 1, cend as int);
                    } else {
                        lemma_first_at_from(line@, '\t', tab as int + 1, ln as int);
                    }
                    assert(first_at_from(line@, '\t', tab as int + 1) == cend as int);
                }
                let count_field = trimmed_segment(line, tab + 1, cend);
                let count = parse_i32_or_zero(count_field.as_str());
                proof {
                    assert(count as int == parse_count_spec(count_field@));
                }
                if item.as_str().unicode_len() > 0 {
                    let ghost item_text = item@;
                    table.insert(
                        FrequencyData { item, frequency_rank: rank, count, is_word },
                    );
                    proof {
                        assert(row_of_line(lv[i as int]) == Some((item_text, count as int)));
                        assert(table_view(table.entries@) == upsert(
                            view0,
                            item_text,
                            rank0,
                            count as int,
                        ));
                    }
                    rank = rank + 1;
                } else {
                    proof {
                        assert(row_of_line(lv[i as int]) is None);
                    }
                }
            } else {
                proof {
                    assert(row_of_line(lv[i as int]) is None);
                }
            }
        }
        proof {
            assert(subtlex_fold(lv, i as int + 1, rank as int, table_view(table.entries@))
                == subtlex_fold(lv, 0, 1, Seq::empty())) by {
                assert(subtlex_fold(lv, i as int, rank0, view0) == subtlex_fold(
                    lv,
                    0,
                    1,
                    Seq::empty(),
                ));
            }
        }
        i = i + 1;
    }
    table
}

/// Parse a SUBTLEX-CH single-character list from its raw file bytes: the
/// decoded text, split into lines, fed through the row-by-row parse.
pub fn parse_subtlex_character_file(bytes: &[u8]) -> (table: FrequencyTable)
    ensures
        table.wf(),
        table_view(table.entries@) == subtlex_fold(
            split_from(gbk_decode(bytes@), 0),
            0,
            1,
            Seq::empty(),
        ).0,
        forall|e: int| 0 <= e < table.entries@.len() ==> !(#[trigger] table.entries@[e]).is_word,
        forall|e: int|
            0 <= e < table.entries@.len() ==> 1 <= (#[trigger] table.entries@[e]).frequency_rank,
{
    let text = decode_gbk_bytes(bytes);
    let lines = split_lines(text.as_str());
    parse_subtlex_lines(&lines, false)
}

/// Parse a SUBTLEX-CH word list from its raw file bytes: the decoded text,
/// split into lines, fed through the row-by-row parse.
pub fn parse_subtlex_word_file(bytes: &[u8]) -> (table: FrequencyTable)
    ensures
        table.wf(),
        table_view(table.entries@) == subtlex_fold(
            split_from(gbk_decode(bytes@), 0),
            0,
            1,
            Seq::empty(),
        ).0,
        forall|e: int| 0 <= e < table.entries@.len() ==> (#[trigger] table.entries@[e]).is_word,
        forall|e: int|
            0 <= e < table.entries@.len() ==> 1 <= (#[trigger] table.entries@[e]).frequency_rank,
{
    let text = decode_gbk_bytes(bytes);
    let lines = split_lines(text.as_str());
    parse_subtlex_lines(&lines, true)
}

} // verus!
