//! Parsing CC-CEDICT dictionary lines:
//! `Traditional Simplified [pin1 yin1] /definition/definition/`.

use vstd::prelude::*;
use vstd::string::StrSliceExecFns;
use crate::strutil::push_char;

verus! {

/// One dictionary entry; `is_word` marks multi-character headwords.
#[derive(Debug, Clone)]
pub struct CedictEntry {
    pub traditional: String,
    pub simplified: String,
    pub pinyin: String,
    pub definitions: Vec<String>,
    pub is_word: bool,
}

/// ASCII whitespace, as the tokenizer understands it.
pub open spec fn is_space_char(c: char) -> bool {
    c == ' ' || c == '\t' || c == '\n' || c == '\r'
}

/// Executable whitespace test matching `is_space_char`.
pub fn check_space(c: char) -> (r: bool)
    ensures
        r == is_space_char(c),
{
    c == ' ' || c == '\t' || c == '\n' || c == '\r'
}

/// `i` is the first position of `c` in `s`.
pub open spec fn is_first_at(s: Seq<char>, c: char, i: int) -> bool {
    &&& 0 <= i < s.len()
    &&& s[i] == c
    &&& forall|j: int| 0 <= j < i ==> s[j] != c
}

/// The first position of a character in a sequence is unique.
pub proof fn lemma_first_at_unique(s: Seq<char>, c: char, i: int, j: int)
    requires
        is_first_at(s, c, i),
        is_first_at(s, c, j),
    ensures
        i == j,
{
    if i < j {
        assert(s[i] == c);
    } else if j < i {
        assert(s[j] == c);
    }
}

/// `[t1s, t1e)` and `[t2s, t2e)` are the first two whitespace-separated
/// tokens of `s`.
pub open spec fn are_first_two_tokens(s: Seq<char>, t1s: int, t1e: int, t2s: int, t2e: int) ->
    bool {
    &&& 0 <= t1s <= t1e <= t2s <= t2e <= s.len()
    &&& (forall|j: int| 0 <= j < t1s ==> is_space_char(#[trigger] s[j]))
    &&& t1s < t1e
    &&& (forall|j: int| t1s <= j < t1e ==> !is_space_char(#[trigger] s[j]))
    &&& t1e < s.len() && is_space_char(s[t1e])
    &&& (forall|j: int| t1e <= j < t2s ==> is_space_char(#[trigger] s[j]))
    &&& t2s < t2e
    &&& (forall|j: int| t2s <= j < t2e ==> !is_space_char(#[trigger] s[j]))
    &&& (t2e == s.len() || is_space_char(s[t2e]))
}

/// `[lo, hi)` is a maximal slash-free, non-empty raw segment of the text
/// after position `pe`, once that text is trimmed of ASCII whitespace: its
/// left edge sits after a `/` or right where the leading whitespace ends,
/// its right edge before a `/` or where the trailing whitespace begins.
pub open spec fn is_segment(s: Seq<char>, pe: int, lo: int, hi: int) -> bool {
    &&& pe < lo < hi <= s.len()
    &&& ((lo > pe + 1 && s[lo - 1] == '/') || ((forall|j: int|
        pe < j < lo ==> is_space_char(#[trigger] s[j])) && !is_space_char(s[lo])))
    &&& ((hi < s.len() && s[hi] == '/') || ((forall|j: int|
        hi <= j < s.len() ==> is_space_char(#[trigger] s[j])) && !is_space_char(s[hi - 1])))
    &&& (forall|k: int| lo <= k < hi ==> #[trigger] s[k] != '/')
}

/// `d` is the segment `[lo, hi)` of `s` with surrounding ASCII whitespace
/// removed.
pub open spec fn is_trimmed_of(s: Seq<char>, lo: int, hi: int, d: Seq<char>) -> bool {
    exists|a: int, b: int|
        {
            &&& lo <= a <= b <= hi
            &&& (forall|k: int| lo <= k < a ==> is_space_char(#[trigger] s[k]))
            &&& (forall|k: int| b <= k < hi ==> is_space_char(#[trigger] s[k]))
            &&& (a == b || (!is_space_char(s[a]) && !is_space_char(s[b - 1])))
            &&& d == #[trigger] s.subrange(a, b)
        }
}

/// `d` is one definition drawn from `line`: a trimmed non-empty raw
/// segment lying after position `pe`.
pub open spec fn definition_of_line(line: Seq<char>, pe: int, d: Seq<char>) -> bool {
    exists|lo: int, hi: int|
        #[trigger] is_segment(line, pe, lo, hi) && is_trimmed_of(line, lo, hi, d)
}

/// A definition implies a non-slash character after `pe` that survives the
/// whitespace trim of the definitions region.
pub proof fn lemma_definition_nonslash(line: Seq<char>, pe: int, d: Seq<char>)
    requires
        definition_of_line(line, pe, d),
    ensures
        exists|k: int|
            #![trigger line[k]]
            {
                &&& pe < k < line.len() && line[k] != '/'
                &&& (exists|j1: int| pe < j1 <= k && !is_space_char(#[trigger] line[j1]))
                &&& (exists|j2: int| k <= j2 < line.len() && !is_space_char(#[trigger] line[j2]))
            },
{
    let (lo, hi): (int, int) = choose|lo: int, hi: int|
        #[trigger] is_segment(line, pe, lo, hi) && is_trimmed_of(line, lo, hi, d);
    assert(pe < lo < line.len() && line[lo] != '/');
    if lo > pe + 1 && line[lo - 1] == '/' {
        assert(pe < lo - 1 <= lo && !is_space_char(line[lo - 1]));
    } else {
        assert(!is_space_char(line[lo]));
    }
    if hi < line.len() && line[hi] == '/' {
        assert(lo <= hi < line.len() && !is_space_char(line[hi]));
    } else {
        assert(lo <= hi - 1 < line.len() && !is_space_char(line[hi - 1]));
    }
}

/// `defs` lists, in order, exactly the trimmed forms of all the raw
/// segments of the text after `pe`.
pub open spec fn definitions_match(
    line: Seq<char>,
    pe: int,
    bounds: Seq<(int, int)>,
    defs: Seq<String>,
) -> bool {
    &&& bounds.len() == defs.len()
    &&& (forall|d: int|
        0 <= d < bounds.len() ==> is_segment(line, pe, (#[trigger] bounds[d]).0, bounds[d].1))
    &&& (forall|d: int|
        0 <= d < bounds.len() ==> is_trimmed_of(
            line,
            (#[trigger] bounds[d]).0,
            bounds[d].1,
            defs[d]@,
        ))
    &&& (forall|d: int| 0 <= d && d + 1 < bounds.len() ==> (#[trigger] bounds[d]).1 < bounds[d + 1].0)
    &&& (forall|lo: int, hi: int|
        #![trigger is_segment(line, pe, lo, hi)]
        is_segment(line, pe, lo, hi) ==> bounds.contains((lo, hi)))
}

/// Every raw segment lies inside the whitespace-trimmed window
/// `[defs_lo, defs_hi)` of the text after `pe`, and closes at a slash or
/// at the window's end.
proof fn lemma_segment_bounds(
    line: Seq<char>,
    pe: int,
    defs_lo: int,
    defs_hi: int,
    lo: int,
    hi: int,
)
    requires
        is_segment(line, pe, lo, hi),
        pe + 1 <= defs_lo <= defs_hi <= line.len(),
        forall|j: int| pe < j < defs_lo ==> is_space_char(#[trigger] line[j]),
        defs_lo < line.len() ==> !is_space_char(line[defs_lo]),
        defs_lo < defs_hi ==> !is_space_char(line[defs_hi - 1]),
        forall|j: int| defs_hi <= j < line.len() ==> is_space_char(#[trigger] line[j]),
    ensures
        defs_lo <= lo,
        hi <= defs_hi,
        hi == defs_hi || line[hi] == '/',
{
    if lo > pe + 1 && line[lo - 1] == '/' {
        if lo - 1 < defs_lo {
            assert(is_space_char(line[lo - 1]));
        }
    } else {
        if lo < defs_lo {
            assert(is_space_char(line[lo]));
            assert(!is_space_char(line[lo]));
        }
    }
    if hi < line.len() && line[hi] == '/' {
        if hi >= defs_hi {
            assert(is_space_char(line[hi]));
        }
    } else {
        if hi < defs_hi {
            assert(is_space_char(line[defs_hi - 1]));
        }
        if hi > defs_hi {
            assert(is_space_char(line[hi - 1]));
            assert(!is_space_char(line[hi - 1]));
        }
    }
}

/// Inside one slash-free run of the window, only the run's start can open
/// a segment that closes at the run's end.
proof fn lemma_segment_start(
    line: Seq<char>,
    pe: int,
    defs_lo: int,
    defs_hi: int,
    seg_start: int,
    upto: int,
    lo: int,
    hi: int,
)
    requires
        is_segment(line, pe, lo, hi),
        pe + 1 <= defs_lo <= defs_hi <= line.len(),
        forall|j: int| pe < j < defs_lo ==> is_space_char(#[trigger] line[j]),
        defs_lo < line.len() ==> !is_space_char(line[defs_lo]),
        defs_lo < defs_hi ==> !is_space_char(line[defs_hi - 1]),
        forall|j: int| defs_hi <= j < line.len() ==> is_space_char(#[trigger] line[j]),
        defs_lo <= seg_start <= upto <= defs_hi,
        seg_start == defs_lo || line[seg_start - 1] == '/',
        forall|k: int| seg_start <= k < upto ==> #[trigger] line[k] != '/',
        hi == upto,
    ensures
        lo == seg_start,
{
    lemma_segment_bounds(line, pe, defs_lo, defs_hi, lo, hi);
    if lo < seg_start {
        if seg_start != defs_lo {
            assert(line[seg_start - 1] == '/');
            assert(lo <= seg_start - 1 < hi);
            assert(line[seg_start - 1] != '/');
        }
    }
    if lo > seg_start {
        if lo > pe + 1 && line[lo - 1] == '/' {
            assert(seg_start <= lo - 1 < upto);
            assert(line[lo - 1] != '/');
        } else {
            if lo > defs_lo {
                assert(is_space_char(line[defs_lo]));
                assert(!is_space_char(line[defs_lo]));
            }
        }
    }
}

/// A line parses when it has a `[`, a `]` after it, two head tokens before
/// the `[`, and at least one character besides `/` after the `]`.
pub open spec fn cedict_line_parses(s: Seq<char>) -> bool {
    exists|ps: int, pe: int|
        {
            &&& #[trigger] is_first_at(s, '[', ps)
            &&& #[trigger] is_first_at(s, ']', pe)
            &&& ps + 1 <= pe
            &&& (exists|t1s: int, t1e: int, t2s: int, t2e: int|
                are_first_two_tokens(s.subrange(0, ps), t1s, t1e, t2s, t2e))
            &&& (exists|k: int|
                #![trigger s[k]]
                {
                    &&& pe < k < s.len() && s[k] != '/'
                    &&& (exists|j1: int| pe < j1 <= k && !is_space_char(#[trigger] s[j1]))
                    &&& (exists|j2: int| k <= j2 < s.len() && !is_space_char(#[trigger] s[j2]))
                })
        }
}

/// Find the first occurrence of `c` in `s`.
#[verifier::loop_isolation(false)]
fn find_first(s: &str, c: char) -> (r: Option<usize>)
    ensures
        r matches Some(i) ==> is_first_at(s@, c, i as int),
        r is None ==> forall|j: int| 0 <= j < s@.len() ==> s@[j] != c,
{
    let n = s.unicode_len();
    let mut i: usize = 0;
    while i < n
        invariant
            0 <= i <= n,
            forall|j: int| 0 <= j < i ==> s@[j] != c,
        decreases n - i,
    {
        if s.get_char(i) == c {
            return Some(i);
        }
        i = i + 1;
    }
    None
}

/// The end of the whitespace run starting at `from`.
#[verifier::loop_isolation(false)]
fn skip_spaces(s: &str, from: usize, upto: usize) -> (r: usize)
    requires
        from <= upto <= s@.len(),
    ensures
        from <= r <= upto,
        forall|j: int| from <= j < r ==> is_space_char(#[trigger] s@[j]),
        r < upto ==> !is_space_char(s@[r as int]),
{
    let mut i = from;
    while i < upto
        invariant
            from <= i <= upto,
            forall|j: int| from <= j < i ==> is_space_char(#[trigger] s@[j]),
        decreases upto - i,
    {
        if !check_space(s.get_char(i)) {
            return i;
        }
        i = i + 1;
    }
    i
}

/// The end of the non-whitespace run starting at `from`.
#[verifier::loop_isolation(false)]
fn take_token(s: &str, from: usize, upto: usize) -> (r: usize)
    requires
        from <= upto <= s@.len(),
    ensures
        from <= r <= upto,
        forall|j: int| from <= j < r ==> !is_space_char(#[trigger] s@[j]),
        r < upto ==> is_space_char(s@[r as int]),
{
    let mut i = from;
    while i < upto
        invariant
            from <= i <= upto,
            forall|j: int| from <= j < i ==> !is_space_char(#[trigger] s@[j]),
        decreases upto - i,
    {
        if check_space(s.get_char(i)) {
            return i;
        }
        i = i + 1;
    }
    i
}

/// Copy the character range `[from, to)` of `s` into an owned string.
fn substring_owned(s: &str, from: usize, to: usize) -> (r: String)
    requires
        from <= to <= s@.len(),
    ensures
        r@ == s@.subrange(from as int, to as int),
{
    let piece = s.substring_char(from, to);
    let mut out = String::new();
    out.append(piece);
    out
}

/// Where the trailing whitespace run of `[lo, hi)` begins.
#[verifier::loop_isolation(false)]
fn trim_end_index(s: &str, lo: usize, hi: usize) -> (b: usize)
    requires
        lo <= hi <= s@.len(),
    ensures
        lo <= b <= hi,
        forall|k: int| b <= k < hi ==> is_space_char(#[trigger] s@[k]),
        b > lo ==> !is_space_char(s@[b as int - 1]),
{
    let mut b = hi;
    while b > lo
        invariant
            lo <= b <= hi,
            forall|k: int| b <= k < hi ==> is_space_char(#[trigger] s@[k]),
        decreases b,
    {
        if !check_space(s.get_char(b - 1)) {
            return b;
        }
        b = b - 1;
    }
    b
}

/// The segment `[lo, hi)` of `s`, trimmed of ASCII whitespace.
#[verifier::loop_isolation(false)]
pub(crate) fn trimmed_segment(s: &str, lo: usize, hi: usize) -> (r: String)
    requires
        lo <= hi <= s@.len(),
    ensures
        is_trimmed_of(s@, lo as int, hi as int, r@),
        r@ == crate::strutil::trim_seq(s@, lo as int, hi as int),
{
    let a = skip_spaces(s, lo, hi);
    let b0 = trim_end_index(s, a, hi);
    let b = if b0 < a {
        a
    } else {
        b0
    };
    let r = substring_owned(s, a, b);
    proof {
        crate::strutil::lemma_ws_end_from(s@, lo as int, hi as int, a as int);
        crate::strutil::lemma_ws_start_back(s@, a as int, hi as int, b as int);
        if a == b {
            assert(is_trimmed_of(s@, lo as int, hi as int, r@));
        } else {
            assert(!is_space_char(s@[a as int]));
            assert(!is_space_char(s@[b as int - 1]));
            assert(is_trimmed_of(s@, lo as int, hi as int, r@));
        }
    }
    r
}

/// Split the text after position `pe` — already located between its
/// leading and trailing whitespace, `[defs_lo, defs_hi)` — into its
/// non-empty raw `/`-segments, each trimmed, in order.
#[verifier::loop_isolation(false)]
#[verifier::rlimit(90)]
fn split_definitions(line: &str, pe: usize, defs_lo: usize, defs_hi: usize) -> (definitions: Vec<
    String,
>)
    requires
        pe < line@.len(),
        pe + 1 <= defs_lo <= defs_hi <= line@.len(),
        forall|j: int| pe < j < defs_lo ==> is_space_char(#[trigger] line@[j]),
        defs_lo < line@.len() ==> !is_space_char(line@[defs_lo as int]),
        defs_lo < defs_hi ==> !is_space_char(line@[defs_hi as int - 1]),
        forall|j: int| defs_hi <= j < line@.len() ==> is_space_char(#[trigger] line@[j]),
    ensures
        exists|bounds: Seq<(int, int)>| #[trigger] definitions_match(
            line@,
            pe as int,
            bounds,
            definitions@,
        ),
        definitions@.len() == 0 ==> (forall|k: int|
            defs_lo <= k < defs_hi ==> #[trigger] line@[k] == '/'),
{
    let mut definitions: Vec<String> = Vec::new();
    let ghost mut bnds: Seq<(int, int)> = Seq::empty();
    let mut seg_start = defs_lo;
    let mut i = defs_lo;
    while i < defs_hi
        invariant
            defs_lo <= seg_start <= i <= defs_hi,
            seg_start == defs_lo || line@[seg_start as int - 1] == '/',
            forall|k: int| seg_start <= k < i ==> #[trigger] line@[k] != '/',
            bnds.len() == definitions@.len(),
            forall|d: int|
                0 <= d < bnds.len() ==> is_segment(
                    line@,
                    pe as int,
                    (#[trigger] bnds[d]).0,
                    bnds[d].1,
                ),
            forall|d: int|
                0 <= d < bnds.len() ==> is_trimmed_of(
                    line@,
                    (#[trigger] bnds[d]).0,
                    bnds[d].1,
                    (definitions@[d])@,
                ),
            forall|d: int| 0 <= d && d + 1 < bnds.len() ==> (#[trigger] bnds[d]).1 < bnds[d + 1].0,
            forall|d: int| 0 <= d < bnds.len() ==> (#[trigger] bnds[d]).1 < seg_start,
            forall|lo: int, hi: int|
                #![trigger is_segment(line@, pe as int, lo, hi)]
                is_segment(line@, pe as int, lo, hi) && hi < i ==> bnds.contains((lo, hi)),
            definitions@.len() == 0 ==> (forall|k: int|
                defs_lo <= k < seg_start ==> #[trigger] line@[k] == '/'),
        decreases defs_hi - i,
    {
        let ghost ss0 = seg_start as int;
        let ghost pre_bnds = bnds;
        let slash_here = line.get_char(i) == '/';
        if slash_here {
            if i > seg_start {
                proof {
                    assert(is_segment(line@, pe as int, seg_start as int, i as int));
                }
                let d = trimmed_segment(line, seg_start, i);
                let ghost dv = d@;
                definitions.push(d);
                proof {
                    bnds = pre_bnds.push((seg_start as int, i as int));
                    assert(bnds.len() == pre_bnds.len() + 1);
                    assert(is_trimmed_of(line@, seg_start as int, i as int, dv));
                    assert((definitions@[definitions@.len() - 1])@ == dv);
                    assert(bnds[bnds.len() - 1] == (seg_start as int, i as int));
                    assert(bnds =~= pre_bnds.push((seg_start as int, i as int)));
                    assert forall|q: int|
                        0 <= q && q + 1 < bnds.len() implies (#[trigger] bnds[q]).1 < bnds[q
                        + 1].0 by {
                        assert(0 <= q < pre_bnds.len());
                        assert(bnds[q] == pre_bnds[q]);
                        if q + 1 < bnds.len() - 1 {
                            assert(bnds[q + 1] == pre_bnds[q + 1]);
                        } else {
                            assert(pre_bnds[q].1 < seg_start);
                        }
                    }
                }
            }
            seg_start = i + 1;
        }
        proof {
            assert forall|lo: int, hi: int|
                #![trigger is_segment(line@, pe as int, lo, hi)]
                is_segment(line@, pe as int, lo, hi) && hi < i + 1 implies bnds.contains(
                (lo, hi),
            ) by {
                if hi < i {
                    assert(pre_bnds.contains((lo, hi)));
                    let d = choose|d: int| 0 <= d < pre_bnds.len() && pre_bnds[d] == (lo, hi);
                    assert(bnds[d] == (lo, hi));
                } else {
                    lemma_segment_bounds(
                        line@,
                        pe as int,
                        defs_lo as int,
                        defs_hi as int,
                        lo,
                        hi,
                    );
                    if slash_here {
                        lemma_segment_start(
                            line@,
                            pe as int,
                            defs_lo as int,
                            defs_hi as int,
                            ss0,
                            i as int,
                            lo,
                            hi,
                        );
                        assert(lo == ss0);
                        assert(ss0 < i);
                        assert(bnds[bnds.len() - 1] == (lo, hi));
                    } else {
                        assert(line@[i as int] != '/');
                        assert(hi == defs_hi as int || line@[hi] == '/');
                        assert(false);
                    }
                }
            }
        }
        i = i + 1;
    }
    let ghost exit_bnds = bnds;
    if i > seg_start {
        proof {
            assert(!is_space_char(line@[defs_hi as int - 1]));
            assert(is_segment(line@, pe as int, seg_start as int, i as int));
        }
        let d = trimmed_segment(line, seg_start, i);
        let ghost dv = d@;
        definitions.push(d);
        proof {
            bnds = exit_bnds.push((seg_start as int, i as int));
            assert(bnds.len() == exit_bnds.len() + 1);
            assert(is_trimmed_of(line@, seg_start as int, i as int, dv));
            assert((definitions@[definitions@.len() - 1])@ == dv);
            assert forall|q: int|
                0 <= q && q + 1 < bnds.len() implies (#[trigger] bnds[q]).1 < bnds[q + 1].0 by {
                assert(bnds[q] == exit_bnds[q]);
                if q + 1 < bnds.len() - 1 {
                    assert(bnds[q + 1] == exit_bnds[q + 1]);
                } else {
                    assert(exit_bnds[q].1 < seg_start);
                }
            }
        }
    }
    proof {
        assert forall|lo: int, hi: int|
            #![trigger is_segment(line@, pe as int, lo, hi)]
            is_segment(line@, pe as int, lo, hi) implies bnds.contains((lo, hi)) by {
            lemma_segment_bounds(line@, pe as int, defs_lo as int, defs_hi as int, lo, hi);
            if hi < defs_hi {
                // closed during the scan
                assert(exit_bnds.contains((lo, hi)));
                let d = choose|d: int| 0 <= d < exit_bnds.len() && exit_bnds[d] == (lo, hi);
                assert(bnds[d] == (lo, hi));
            } else {
                lemma_segment_start(
                    line@,
                    pe as int,
                    defs_lo as int,
                    defs_hi as int,
                    seg_start as int,
                    defs_hi as int,
                    lo,
                    hi,
                );
                assert(lo == seg_start as int);
                assert(seg_start < defs_hi);
                assert(bnds[bnds.len() - 1] == (lo, hi));
            }
        }
        assert(definitions_match(line@, pe as int, bnds, definitions@));
    }

    proof {
        if definitions@.len() == 0 {
            assert(i == seg_start);
            assert forall|k: int| defs_lo <= k < defs_hi implies #[trigger] line@[k] == '/' by {
                assert(k < seg_start);
            }
        }
    }
    definitions
}

/// Parse one dictionary line.
///
/// On success: the pinyin is exactly the text between the first `[` and the
/// first `]`; the traditional and simplified forms are the first two
/// whitespace tokens before the `[`; `is_word` says whether the simplified
/// form has more than one character; and the definitions are, in order,
/// exactly the non-empty raw `/`-segments of the text after the `]`, each
/// trimmed. A line with no `[`, no
/// `]` after it, fewer than two head tokens, or nothing but `/` after the
/// `]` yields `None`.
#[verifier::loop_isolation(false)]
#[verifier::rlimit(90)]
pub fn parse_cedict_line(line: &str) -> (r: Option<CedictEntry>)
    ensures
        r is Some <==> cedict_line_parses(line@),
        r matches Some(e) ==> exists|ps: int, pe: int|
            {
                &&& #[trigger] is_first_at(line@, '[', ps)
                &&& #[trigger] is_first_at(line@, ']', pe)
                &&& ps + 1 <= pe
                &&& e.pinyin@ == line@.subrange(ps + 1, pe)
                &&& (exists|t1s: int, t1e: int, t2s: int, t2e: int|
                    {
                        &&& #[trigger] are_first_two_tokens(
                            line@.subrange(0, ps),
                            t1s,
                            t1e,
                            t2s,
                            t2e,
                        )
                        &&& e.traditional@ == line@.subrange(t1s, t1e)
                        &&& e.simplified@ == line@.subrange(t2s, t2e)
                    })
                &&& e.is_word == (e.simplified@.len() > 1)
                &&& e.definitions@.len() >= 1
                &&& (exists|bounds: Seq<(int, int)>| #[trigger] definitions_match(
                    line@,
                    pe,
                    bounds,
                    e.definitions@,
                ))
            },
{
    let n = line.unicode_len();
    let ps = match find_first(line, '[') {
        Some(i) => i,
        None => {
            proof {
                assert(!cedict_line_parses(line@));
            }
            return None;
        },
    };
    let pe = match find_first(line, ']') {
        Some(i) => i,
        None => {
            proof {
                assert(!cedict_line_parses(line@));
            }
            return None;
        },
    };
    if pe < ps + 1 {
        proof {
            assert forall|ps2: int, pe2: int|
                is_first_at(line@, '[', ps2) && is_first_at(line@, ']', pe2)
                implies ps2 == ps as int && pe2 == pe as int by {}
            assert(!cedict_line_parses(line@));
        }
        return None;
    }
    // Head tokens, in the text before the '['.
    let ghost head = line@.subrange(0, ps as int);
    proof {
        assert forall|j: int| 0 <= j < ps implies #[trigger] head[j] == line@[j] by {}
    }
    let t1s = skip_spaces(line, 0, ps);
    if t1s == ps {
        proof {
            assert forall|a: int, b: int, c: int, d: int|
                !are_first_two_tokens(head, a, b, c, d) by {
                if are_first_two_tokens(head, a, b, c, d) {
                    assert(head[a] == line@[a]);
                    assert(!is_space_char(line@[a]));
                }
            }
            assert(!cedict_line_parses(line@));
        }
        return None;
    }
    let t1e = take_token(line, t1s, ps);
    if t1e == ps {
        proof {
            assert forall|a: int, b: int, c: int, d: int|
                !are_first_two_tokens(head, a, b, c, d) by {
                if are_first_two_tokens(head, a, b, c, d) {
                    assert(a == t1s as int) by {
                        if a < t1s {
                            assert(is_space_char(line@[a]));
                            assert(!is_space_char(head[a]));
                        }
                        if a > t1s {
                            assert(is_space_char(head[t1s as int]));
                            assert(!is_space_char(line@[t1s as int]));
                        }
                    }
                    assert(b < ps);
                    assert(t1s <= b);
                    assert(is_space_char(head[b]));
                    assert(!is_space_char(line@[b]));
                }
            }
            assert(!cedict_line_parses(line@));
        }
        return None;
    }
    let t2s = skip_spaces(line, t1e, ps);
    if t2s == ps {
        proof {
            assert forall|a: int, b: int, c: int, d: int|
                !are_first_two_tokens(head, a, b, c, d) by {
                if are_first_two_tokens(head, a, b, c, d) {
                    assert(a == t1s as int) by {
                        if a < t1s {
                            assert(is_space_char(line@[a]));
                            assert(!is_space_char(head[a]));
                        }
                        if a > t1s {
                            assert(is_space_char(head[t1s as int]));
                            assert(!is_space_char(line@[t1s as int]));
                        }
                    }
                    assert(b == t1e as int) by {
                        if b < t1e {
                            assert(is_space_char(head[b]));
                            assert(!is_space_char(line@[b]));
                        }
                        if b > t1e {
                            assert(!is_space_char(head[t1e as int]));
                            assert(is_space_char(line@[t1e as int]));
                        }
                    }
                    assert(c < ps);
                    assert(t1e <= c);
                    assert(!is_space_char(head[c]));
                    assert(is_space_char(line@[c]));
                }
            }
            assert(!cedict_line_parses(line@));
        }
        return None;
    }
    let t2e = take_token(line, t2s, ps);
    proof {
        assert(are_first_two_tokens(head, t1s as int, t1e as int, t2s as int, t2e as int)) by {
            assert forall|j: int| 0 <= j < t1s implies is_space_char(#[trigger] head[j]) by {
                assert(head[j] == line@[j]);
            }
            assert forall|j: int| t1s <= j < t1e implies !is_space_char(#[trigger] head[j]) by {
                assert(head[j] == line@[j]);
            }
            assert forall|j: int| t1e <= j < t2s implies is_space_char(#[trigger] head[j]) by {
                assert(head[j] == line@[j]);
            }
            assert forall|j: int| t2s <= j < t2e implies !is_space_char(#[trigger] head[j]) by {
                assert(head[j] == line@[j]);
            }
            assert(head[t1e as int] == line@[t1e as int]);
            if (t2e as int) < head.len() {
                assert(head[t2e as int] == line@[t2e as int]);
            }
        }
    }
    // Definitions, in the text after the ']', trimmed of surrounding
    // whitespace before it is split.
    let defs_lo = skip_spaces(line, pe + 1, n);
    let defs_hi = trim_end_index(line, defs_lo, n);
    let definitions = split_definitions(line, pe, defs_lo, defs_hi);
    if definitions.len() == 0 {
        proof {
            assert(!cedict_line_parses(line@)) by {
                if cedict_line_parses(line@) {
                    let (ps2, pe2): (int, int) = choose|ps2: int, pe2: int|
                        {
                            &&& #[trigger] is_first_at(line@, '[', ps2)
                            &&& #[trigger] is_first_at(line@, ']', pe2)
                            &&& ps2 + 1 <= pe2
                            &&& (exists|t1s: int, t1e: int, t2s: int, t2e: int|
                                are_first_two_tokens(line@.subrange(0, ps2), t1s, t1e, t2s, t2e))
                            &&& (exists|k: int|
                                #![trigger line@[k]]
                                {
                                    &&& pe2 < k < line@.len() && line@[k] != '/'
                                    &&& (exists|j1: int|
                                        pe2 < j1 <= k && !is_space_char(#[trigger] line@[j1]))
                                    &&& (exists|j2: int|
                                        k <= j2 < line@.len() && !is_space_char(
                                            #[trigger] line@[j2],
                                        ))
                                })
                        };
                    lemma_first_at_unique(line@, ']', pe2, pe as int);
                    let k = choose|k: int|
                        #![trigger line@[k]]
                        {
                            &&& pe2 < k < line@.len() && line@[k] != '/'
                            &&& (exists|j1: int|
                                pe2 < j1 <= k && !is_space_char(#[trigger] line@[j1]))
                            &&& (exists|j2: int|
                                k <= j2 < line@.len() && !is_space_char(#[trigger] line@[j2]))
                        };
                    if k < defs_lo {
                        let j1 = choose|j1: int|
                            pe2 < j1 <= k && !is_space_char(#[trigger] line@[j1]);
                        assert(is_space_char(line@[j1]));
                    } else if k >= defs_hi {
                        let j2 = choose|j2: int|
                            k <= j2 < line@.len() && !is_space_char(#[trigger] line@[j2]);
                        assert(is_space_char(line@[j2]));
                    } else {
                        assert(line@[k] == '/');
                    }
                }
            }
        }
        return None;
    }
    let traditional = substring_owned(line, t1s, t1e);
    let simplified = substring_owned(line, t2s, t2e);
    let pinyin = substring_owned(line, ps + 1, pe);
    let is_word = t2e - t2s > 1;
    proof {
        assert(line@.subrange(t1s as int, t1e as int) == head.subrange(t1s as int, t1e as int))
            by {
            assert(line@.subrange(t1s as int, t1e as int) =~= head.subrange(
                t1s as int,
                t1e as int,
            ));
        }
        assert(cedict_line_parses(line@)) by {
            assert(is_first_at(line@, '[', ps as int));
            assert(is_first_at(line@, ']', pe as int));
            assert(definitions@.len() >= 1);
            let bounds = choose|bounds: Seq<(int, int)>|
                #[trigger] definitions_match(line@, pe as int, bounds, definitions@);
            assert(is_segment(line@, pe as int, bounds[0].0, bounds[0].1));
            assert(is_trimmed_of(line@, bounds[0].0, bounds[0].1, definitions@[0]@));
            assert(definition_of_line(line@, pe as int, definitions@[0]@));
            lemma_definition_nonslash(line@, pe as int, definitions@[0]@);
        }
    }
    Some(CedictEntry { traditional, simplified, pinyin, definitions, is_word })
}

/// Remove parenthetical runs — round brackets, ASCII or full-width — from a
/// definition, then trim ASCII whitespace; nesting is honoured and stray
/// closers are ignored.
pub open spec fn is_open_paren(c: char) -> bool {
    c == '(' || c == '\u{FF08}'
}

pub open spec fn is_close_paren(c: char) -> bool {
    c == ')' || c == '\u{FF09}'
}

/// The characters of `s` that sit at parenthesis depth zero, in order,
/// parentheses themselves excluded.
pub open spec fn strip_parens_spec(s: Seq<char>, depth: int) -> Seq<char>
    decreases s.len(),
{
    if s.len() == 0 {
        Seq::empty()
    } else {
        let c = s[0];
        let rest = s.drop_first();
        if is_open_paren(c) {
            strip_parens_spec(rest, depth + 1)
        } else if is_close_paren(c) {
            strip_parens_spec(rest, if depth > 0 { depth - 1 } else { 0 })
        } else if depth == 0 {
            seq![c] + strip_parens_spec(rest, 0)
        } else {
            strip_parens_spec(rest, depth)
        }
    }
}

/// Remove parenthetical content from a definition, for comparison: keeps
/// exactly the depth-zero characters, whitespace-trimmed.
#[verifier::loop_isolation(false)]
#[verifier::rlimit(60)]
pub fn strip_parentheses(s: &str) -> (r: String)
    ensures
        is_trimmed_of(
            strip_parens_spec(s@, 0),
            0,
            strip_parens_spec(s@, 0).len() as int,
            r@,
        ),
{
    let n = s.unicode_len();
    let mut kept = String::new();
    let mut depth: u64 = 0;
    let mut i: usize = 0;
    proof {
        assert(s@.subrange(0, n as int) =~= s@);
        assert(kept@ + strip_parens_spec(s@, 0) =~= strip_parens_spec(s@, 0));
    }
    while i < n
        invariant
            0 <= i <= n,
            depth <= i,
            strip_parens_spec(s@, 0) == kept@ + strip_parens_spec(
                s@.subrange(i as int, n as int),
                depth as int,
            ),
        decreases n - i,
    {
        let ghost pre = kept@;
        let c = s.get_char(i);
        proof {
            assert(s@.subrange(i as int, n as int).drop_first() =~= s@.subrange(
                i as int + 1,
                n as int,
            ));
        }
        if c == '(' || c == '\u{FF08}' {
            depth = depth + 1;
        } else if c == ')' || c == '\u{FF09}' {
            if depth > 0 {
                depth = depth - 1;
            }
        } else {
            if depth == 0 {
                push_char(&mut kept, c);
                proof {
                    assert(pre + (seq![c] + strip_parens_spec(
                        s@.subrange(i as int + 1, n as int),
                        0,
                    )) =~= kept@ + strip_parens_spec(s@.subrange(i as int + 1, n as int), 0));
                }
            }
        }
        i = i + 1;
    }
    proof {
        assert(s@.subrange(n as int, n as int) =~= Seq::<char>::empty());
        assert(strip_parens_spec(s@, 0) == kept@);
    }
    // Trim, as the comparison wants.
    let kn = kept.as_str().unicode_len();
    let r = trimmed_segment(kept.as_str(), 0, kn);
    proof {
        assert(kept@ == strip_parens_spec(s@, 0));
    }
    r
}

/// Parse a whole dictionary text, skipping comment lines (starting `#`),
/// lines of nothing but ASCII whitespace, and lines that do not parse.
#[verifier::loop_isolation(false)]
pub fn parse_cedict_entries(lines: &Vec<String>) -> (entries: Vec<CedictEntry>)
    ensures
        entries@.len() <= lines@.len(),
{
    let n = lines.len();
    let mut entries: Vec<CedictEntry> = Vec::new();
    let mut i: usize = 0;
    while i < n
        invariant
            0 <= i <= n,
            entries@.len() <= i,
        decreases n - i,
    {
        let line = &lines[i];
        let ln = line.as_str().unicode_len();
        let mut skip = false;
        if ln == 0 {
            skip = true;
        } else if line.as_str().get_char(0) == '#' {
            skip = true;
        } else {
            let ws_end = skip_spaces(line.as_str(), 0, ln);
            if ws_end == ln {
                skip = true;
            }
        }
        if !skip {
            match parse_cedict_line(line.as_str()) {
                Some(e) => {
                    entries.push(e);
                },
                None => {},
            }
        }
        i = i + 1;
    }
    entries
}

} // verus!
