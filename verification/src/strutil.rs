//! Small string-building helpers shared by the formatting and parsing code.

use vstd::prelude::*;
use vstd::string::StrSliceExecFns;
use crate::cedict::is_space_char;

verus! {

/// Relies on `String::push`: appends exactly one character at the end.
#[verifier::external_body]
pub(crate) fn push_char(s: &mut String, c: char)
    ensures
        final(s)@ == old(s)@.push(c),
{
    s.push(c);
}

/// Whether `c` is an ASCII decimal digit.
pub open spec fn is_digit(c: char) -> bool {
    48 <= c as int && c as int <= 57
}

/// The numeric value of an ASCII decimal digit.
pub open spec fn digit_val(c: char) -> int {
    c as int - 48
}

/// The ASCII digit character for a value in 0..10.
pub open spec fn digit_char(d: int) -> char {
    if d == 0 {
        '0'
    } else if d == 1 {
        '1'
    } else if d == 2 {
        '2'
    } else if d == 3 {
        '3'
    } else if d == 4 {
        '4'
    } else if d == 5 {
        '5'
    } else if d == 6 {
        '6'
    } else if d == 7 {
        '7'
    } else if d == 8 {
        '8'
    } else {
        '9'
    }
}

/// Executable digit test matching `is_digit`.
pub fn check_digit(c: char) -> (r: bool)
    ensures
        r == is_digit(c),
{
    let v = c as u32;
    48 <= v && v <= 57
}

/// Executable digit value, for a digit character.
pub fn digit_value(c: char) -> (r: u64)
    requires
        is_digit(c),
    ensures
        r as int == digit_val(c),
        r <= 9,
{
    (c as u32 - 48) as u64
}

/// Executable digit character, for a value below 10.
pub fn digit_to_char(d: u64) -> (r: char)
    requires
        d <= 9,
    ensures
        r == digit_char(d as int),
{
    if d == 0 {
        '0'
    } else if d == 1 {
        '1'
    } else if d == 2 {
        '2'
    } else if d == 3 {
        '3'
    } else if d == 4 {
        '4'
    } else if d == 5 {
        '5'
    } else if d == 6 {
        '6'
    } else if d == 7 {
        '7'
    } else if d == 8 {
        '8'
    } else {
        '9'
    }
}

/// Character-wise string equality.
#[verifier::loop_isolation(false)]
pub fn str_eq(a: &str, b: &str) -> (r: bool)
    ensures
        r == (a@ == b@),
{
    let na = a.unicode_len();
    let nb = b.unicode_len();
    if na != nb {
        return false;
    }
    let mut i: usize = 0;
    while i < na
        invariant
            0 <= i <= na,
            na == a@.len() == b@.len(),
            forall|j: int| 0 <= j < i ==> a@[j] == b@[j],
        decreases na - i,
    {
        if a.get_char(i) != b.get_char(i) {
            return false;
        }
        i = i + 1;
    }
    proof {
        assert(a@ =~= b@);
    }
    true
}

/// The first position of `c` in `s` at or after `i`; `s.len()` when there
/// is none.
pub open spec fn first_at_from(s: Seq<char>, c: char, i: int) -> int
    decreases s.len() - i,
{
    if i < 0 || i >= s.len() {
        s.len() as int
    } else if s[i] == c {
        i
    } else {
        first_at_from(s, c, i + 1)
    }
}

/// `first_at_from` is pinned by a scan that saw no `c` before `i`.
pub proof fn lemma_first_at_from(s: Seq<char>, c: char, start: int, i: int)
    requires
        0 <= start <= i <= s.len(),
        forall|j: int| start <= j < i ==> s[j] != c,
        i == s.len() || s[i] == c,
    ensures
        first_at_from(s, c, start) == i,
    decreases i - start,
{
    if start < i {
        lemma_first_at_from(s, c, start + 1, i);
    }
}

/// Where the whitespace run of `[lo, hi)` ends.
pub open spec fn ws_end_from(s: Seq<char>, lo: int, hi: int) -> int
    decreases hi - lo,
{
    if lo < 0 || lo >= hi {
        hi
    } else if is_space_char(s[lo]) {
        ws_end_from(s, lo + 1, hi)
    } else {
        lo
    }
}

/// `ws_end_from` is pinned by a scan.
pub proof fn lemma_ws_end_from(s: Seq<char>, lo: int, hi: int, a: int)
    requires
        0 <= lo <= a <= hi,
        forall|j: int| lo <= j < a ==> is_space_char(#[trigger] s[j]),
        a == hi || !is_space_char(s[a]),
    ensures
        ws_end_from(s, lo, hi) == a,
    decreases a - lo,
{
    if lo < a {
        lemma_ws_end_from(s, lo + 1, hi, a);
    }
}

/// Where the trailing whitespace run of `[lo, hi)` begins.
pub open spec fn ws_start_back(s: Seq<char>, lo: int, hi: int) -> int
    decreases hi,
{
    if hi <= lo || hi <= 0 {
        lo
    } else if is_space_char(s[hi - 1]) {
        ws_start_back(s, lo, hi - 1)
    } else {
        hi
    }
}

/// `ws_start_back` is pinned by a backward scan.
pub proof fn lemma_ws_start_back(s: Seq<char>, lo: int, hi: int, b: int)
    requires
        0 <= lo <= b <= hi,
        forall|j: int| b <= j < hi ==> is_space_char(#[trigger] s[j]),
        b == lo || !is_space_char(s[b - 1]),
    ensures
        ws_start_back(s, lo, hi) == b,
    decreases hi,
{
    if b < hi {
        lemma_ws_start_back(s, lo, hi - 1, b);
    }
}

/// The range `[lo, hi)` of `s` with surrounding whitespace removed.
pub open spec fn trim_seq(s: Seq<char>, lo: int, hi: int) -> Seq<char> {
    let a = ws_end_from(s, lo, hi);
    let b = ws_start_back(s, a, hi);
    s.subrange(a, b)
}

} // verus!
