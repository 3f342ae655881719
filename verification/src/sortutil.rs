//! A verified sort of `(key, index)` pairs, ascending by key. The scheduler
//! sorts candidate items by introduction score or frequency rank and takes
//! a prefix.

use vstd::prelude::*;

verus! {

/// Whether some pair in `pairs` carries the index `v`.
pub open spec fn holds_index(pairs: Seq<(i64, usize)>, v: usize) -> bool {
    exists|p: int| 0 <= p < pairs.len() && (#[trigger] pairs[p]).1 == v
}

/// Ascending by the key component.
pub open spec fn sorted_pairs(s: Seq<(i64, usize)>) -> bool {
    forall|i: int, j: int| 0 <= i < j < s.len() ==> (#[trigger] s[i]).0 <= (#[trigger] s[j]).0
}

/// Sort pairs ascending by key. The result holds exactly the input pairs.
pub fn sort_by_key(input: &Vec<(i64, usize)>) -> (out: Vec<(i64, usize)>)
    ensures
        sorted_pairs(out@),
        out@.to_multiset() == input@.to_multiset(),
        out@.len() == input@.len(),
{
    broadcast use vstd::seq_lib::group_to_multiset_ensures;
    broadcast use vstd::multiset::group_multiset_axioms;

    let ghost input_ms = input@.to_multiset();
    let mut rest: Vec<(i64, usize)> = Vec::new();
    let in_len = input.len();
    let mut c: usize = 0;
    while c < in_len
        invariant
            in_len == input@.len(),
            0 <= c <= in_len,
            rest@ == input@.take(c as int),
        decreases in_len - c,
    {
        rest.push(input[c]);
        proof {
            assert(rest@ =~= input@.take(c as int + 1));
        }
        c = c + 1;
    }
    proof {
        assert(input@.take(in_len as int) =~= input@);
    }
    let mut out: Vec<(i64, usize)> = Vec::new();
    while rest.len() > 0
        invariant
            out@.to_multiset().add(rest@.to_multiset()) =~= input_ms,
            out@.len() + rest@.len() == input_ms.len(),
            sorted_pairs(out@),
            forall|a: int, b: int|
                0 <= a < out@.len() && 0 <= b < rest@.len() ==> (#[trigger] out@[a]).0 <= (
                #[trigger] rest@[b]).0,
        decreases rest@.len(),
    {
        broadcast use vstd::seq_lib::group_to_multiset_ensures;
        broadcast use vstd::multiset::group_multiset_axioms;

        let n = rest.len();
        let mut m: usize = 0;
        let mut k: usize = 1;
        while k < n
            invariant
                n == rest@.len(),
                0 <= m < k <= n,
                forall|j: int| 0 <= j < k ==> (#[trigger] rest@[j]).0 >= rest@[m as int].0,
            decreases n - k,
        {
            if rest[k].0 < rest[m].0 {
                m = k;
            }
            k = k + 1;
        }
        let x = rest.remove(m);
        out.push(x);
        proof {
            assert(out@.to_multiset().add(rest@.to_multiset()) =~= input_ms);
        }
    }
    proof {
        assert(out@.to_multiset().add(rest@.to_multiset()) =~= out@.to_multiset());
    }
    out
}

/// All the indices carried by `pairs`, reordered ascending by key. Each
/// pair's key must agree with the ghost key function, and no index may
/// appear twice.
pub fn sorted_indices(pairs: &Vec<(i64, usize)>, Ghost(key): Ghost<spec_fn(int) -> int>) -> (r:
    Vec<usize>)
    requires
        forall|a: int, b: int|
            0 <= a < b < pairs@.len() ==> (#[trigger] pairs@[a]).1 != (#[trigger] pairs@[b]).1,
        forall|a: int| 0 <= a < pairs@.len() ==> (#[trigger] pairs@[a]).0 as int == key(
            pairs@[a].1 as int,
        ),
    ensures
        r@.len() == pairs@.len(),
        forall|a: int, b: int| 0 <= a < b < r@.len() ==> r@[a] != r@[b],
        forall|a: int, b: int|
            0 <= a < b < r@.len() ==> key(#[trigger] r@[a] as int) <= key(#[trigger] r@[b] as int),
        forall|a: int| 0 <= a < r@.len() ==> holds_index(pairs@, #[trigger] r@[a]),
        forall|p: int| 0 <= p < pairs@.len() ==> r@.contains((#[trigger] pairs@[p]).1),
{
    broadcast use vstd::seq_lib::group_to_multiset_ensures;
    broadcast use vstd::multiset::group_multiset_axioms;

    
    proof {
        assert(pairs@.no_duplicates()) by {
            assert forall|a: int, b: int|
                0 <= a < pairs@.len() && 0 <= b < pairs@.len() && a != b
                implies pairs@[a] != pairs@[b] by {
                if a < b {
                    assert(pairs@[a].1 != pairs@[b].1);
                } else {
                    assert(pairs@[b].1 != pairs@[a].1);
                }
            }
        }
        pairs@.lemma_multiset_has_no_duplicates();
    }
    let sorted = sort_by_key(pairs);
    proof {
        // Same multiset, so the sorted sequence has the same members, each
        // still exactly once.
        assert forall|x: (i64, usize)| sorted@.contains(x) implies pairs@.contains(x) by {
            assert(sorted@.to_multiset().count(x) > 0);
        }
        assert forall|x: (i64, usize)| pairs@.contains(x) implies sorted@.contains(x) by {
            assert(pairs@.to_multiset().count(x) > 0);
        }
        sorted@.lemma_multiset_has_no_duplicates_conv();
        assert forall|a: int, b: int|
            0 <= a < b < sorted@.len()
            implies (#[trigger] sorted@[a]).1 != (#[trigger] sorted@[b]).1 by {
            assert(sorted@[a] != sorted@[b]);
            let p1 = choose|p: int|
                0 <= p < pairs@.len() && pairs@[p] == sorted@[a];
            let p2 = choose|p: int|
                0 <= p < pairs@.len() && pairs@[p] == sorted@[b];
            assert(pairs@.contains(sorted@[a]));
            assert(pairs@.contains(sorted@[b]));
            if sorted@[a].1 == sorted@[b].1 {
                assert(pairs@[p1] == sorted@[a]);
                assert(pairs@[p2] == sorted@[b]);
                assert(p1 != p2);
            }
        }
        assert forall|a: int| 0 <= a < sorted@.len() implies (#[trigger] sorted@[a]).0 as int
            == key(sorted@[a].1 as int) by {
            assert(pairs@.contains(sorted@[a]));
            let p = choose|p: int| 0 <= p < pairs@.len() && pairs@[p] == sorted@[a];
            assert(pairs@[p].0 as int == key(pairs@[p].1 as int));
        }
    }
    let ghost sorted_view = sorted@;
    let n = sorted.len();
    let mut r: Vec<usize> = Vec::new();
    let mut i: usize = 0;
    while i < n
        invariant
            n == sorted_view.len(),
            sorted@ == sorted_view,
            0 <= i <= n,
            r@.len() == i,
            forall|a: int| 0 <= a < i ==> r@[a] == (#[trigger] sorted_view[a]).1,
        decreases n - i,
    {
        r.push(sorted[i].1);
        i = i + 1;
    }
    proof {
        assert forall|a: int, b: int| 0 <= a < b < r@.len() implies r@[a] != r@[b] by {
            assert(r@[a] == sorted_view[a].1);
            assert(r@[b] == sorted_view[b].1);
            assert(sorted_view[a].1 != sorted_view[b].1);
        }
        assert forall|a: int, b: int|
            0 <= a < b < r@.len() implies key(#[trigger] r@[a] as int) <= key(
            #[trigger] r@[b] as int) by {
            assert(sorted_view[a].0 as int == key(sorted_view[a].1 as int));
            assert(sorted_view[b].0 as int == key(sorted_view[b].1 as int));
            assert(sorted_view[a].0 <= sorted_view[b].0);
        }
        assert forall|a: int| 0 <= a < r@.len() implies holds_index(pairs@, #[trigger] r@[a]) by {
            assert(sorted_view.contains(sorted_view[a]));
            assert(pairs@.contains(sorted_view[a]));
            let p = choose|p: int| 0 <= p < pairs@.len() && pairs@[p] == sorted_view[a];
            assert(pairs@[p].1 == r@[a]);
        }
        assert forall|p: int| 0 <= p < pairs@.len() implies r@.contains(
            (#[trigger] pairs@[p]).1,
        ) by {
            assert(pairs@.contains(pairs@[p]));
            assert(sorted_view.contains(pairs@[p]));
            let q = choose|q: int| 0 <= q < sorted_view.len() && sorted_view[q] == pairs@[p];
            assert(r@[q] == pairs@[p].1);
        }
    }
    r
}

/// The (at most) `limit` indices with the lowest keys, ascending by key:
/// every index left out has a key at least as large as every index kept.
pub fn take_lowest(pairs: &Vec<(i64, usize)>, limit: usize, Ghost(key): Ghost<
    spec_fn(int) -> int,
>) -> (r: Vec<usize>)
    requires
        forall|a: int, b: int|
            0 <= a < b < pairs@.len() ==> (#[trigger] pairs@[a]).1 != (#[trigger] pairs@[b]).1,
        forall|a: int| 0 <= a < pairs@.len() ==> (#[trigger] pairs@[a]).0 as int == key(
            pairs@[a].1 as int,
        ),
    ensures
        r@.len() == if limit <= pairs@.len() {
            limit as int
        } else {
            pairs@.len() as int
        },
        forall|a: int, b: int| 0 <= a < b < r@.len() ==> r@[a] != r@[b],
        forall|a: int, b: int|
            0 <= a < b < r@.len() ==> key(#[trigger] r@[a] as int) <= key(#[trigger] r@[b] as int),
        forall|a: int| 0 <= a < r@.len() ==> holds_index(pairs@, #[trigger] r@[a]),
        pairs@.len() <= limit ==> forall|p: int|
            0 <= p < pairs@.len() ==> r@.contains((#[trigger] pairs@[p]).1),
        forall|p: int|
            0 <= p < pairs@.len() && !r@.contains(pairs@[p].1) ==> forall|a: int|
                0 <= a < r@.len() ==> key(#[trigger] r@[a] as int) <= key(
                    (#[trigger] pairs@[p]).1 as int,
                ),
{
    
    let full = sorted_indices(pairs, Ghost(key));
    let keep = if limit <= full.len() {
        limit
    } else {
        full.len()
    };
    let mut r: Vec<usize> = Vec::new();
    let mut i: usize = 0;
    while i < keep
        invariant
            keep <= full@.len(),
            0 <= i <= keep,
            r@.len() == i,
            forall|a: int| 0 <= a < i ==> r@[a] == (#[trigger] full@[a]),
        decreases keep - i,
    {
        r.push(full[i]);
        i = i + 1;
    }
    proof {
        assert forall|a: int, b: int| 0 <= a < b < r@.len() implies r@[a] != r@[b] by {
            assert(r@[a] == full@[a]);
            assert(r@[b] == full@[b]);
        }
        assert forall|a: int, b: int|
            0 <= a < b < r@.len() implies key(#[trigger] r@[a] as int) <= key(
            #[trigger] r@[b] as int) by {
            assert(key(full@[a] as int) <= key(full@[b] as int));
        }
        assert forall|a: int| 0 <= a < r@.len() implies holds_index(pairs@, #[trigger] r@[a]) by {
            assert(r@[a] == full@[a]);
            assert(holds_index(pairs@, full@[a]));
        }
        assert forall|p: int|
            0 <= p < pairs@.len() && !r@.contains(pairs@[p].1) implies forall|a: int|
            0 <= a < r@.len() ==> key(#[trigger] r@[a] as int) <= key(
                (pairs@[p]).1 as int,
            ) by {
            assert(full@.contains(pairs@[p].1));
            let q = choose|q: int| 0 <= q < full@.len() && full@[q] == pairs@[p].1;
            assert(0 <= q < full@.len() && full@[q] == pairs@[p].1);
            if q < r@.len() {
                assert(r@[q] == pairs@[p].1);
                assert(r@.contains(pairs@[p].1));
            }
            assert forall|a: int| 0 <= a < r@.len() implies key(#[trigger] r@[a] as int) <= key(
                (pairs@[p]).1 as int,
            ) by {
                assert(key(full@[a] as int) <= key(full@[q] as int));
            }
        }
        if pairs@.len() <= limit {
            assert forall|p: int| 0 <= p < pairs@.len() implies r@.contains(
                (#[trigger] pairs@[p]).1,
            ) by {
                assert(full@.contains(pairs@[p].1));
                let q = choose|q: int| 0 <= q < full@.len() && full@[q] == pairs@[p].1;
                assert(r@[q] == pairs@[p].1);
            }
        }
    }
    r
}

} // verus!
