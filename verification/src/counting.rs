//! Prefix-counting over sequences, and facts about duplicate-free
//! sequences, used to track covered-cell and bomb totals.

use vstd::prelude::*;

verus! {

/// Number of `true` entries among the first `k` elements of `s`.
pub open spec fn count_true_upto(s: Seq<bool>, k: int) -> int
    decreases k,
{
    if k <= 0 {
        0
    } else {
        count_true_upto(s, k - 1) + if s[k - 1] {
            1int
        } else {
            0int
        }
    }
}

/// Number of `true` entries of `s`.
pub open spec fn count_true(s: Seq<bool>) -> int {
    count_true_upto(s, s.len() as int)
}

pub proof fn lemma_count_true_upto_bounds(s: Seq<bool>, k: int)
    requires
        0 <= k <= s.len(),
    ensures
        0 <= count_true_upto(s, k) <= k,
    decreases k,
{
    if k > 0 {
        lemma_count_true_upto_bounds(s, k - 1);
    }
}

pub proof fn lemma_count_true_upto_agree(s1: Seq<bool>, s2: Seq<bool>, k: int)
    requires
        0 <= k <= s1.len(),
        k <= s2.len(),
        forall|i: int| 0 <= i < k ==> s1[i] == s2[i],
    ensures
        count_true_upto(s1, k) == count_true_upto(s2, k),
    decreases k,
{
    if k > 0 {
        lemma_count_true_upto_agree(s1, s2, k - 1);
    }
}

/// Flipping one entry changes the prefix count by the difference of
/// the indicator values, when the entry lies inside the prefix.
pub proof fn lemma_count_true_update(s: Seq<bool>, i: int, b: bool, k: int)
    requires
        0 <= i < s.len(),
        0 <= k <= s.len(),
    ensures
        count_true_upto(s.update(i, b), k) == count_true_upto(s, k) + if i < k {
            (if b {
                1int
            } else {
                0int
            }) - (if s[i] {
                1int
            } else {
                0int
            })
        } else {
            0int
        },
    decreases k,
{
    if k > 0 {
        lemma_count_true_update(s, i, b, k - 1);
    }
}

pub proof fn lemma_count_true_push(s: Seq<bool>, b: bool)
    ensures
        count_true(s.push(b)) == count_true(s) + if b {
            1int
        } else {
            0int
        },
{
    lemma_count_true_upto_agree(s, s.push(b), s.len() as int);
}

/// A prefix with count zero holds no `true` entry.
pub proof fn lemma_count_true_zero(s: Seq<bool>, k: int)
    requires
        0 <= k <= s.len(),
        count_true_upto(s, k) == 0,
    ensures
        forall|i: int| 0 <= i < k ==> !(#[trigger] s[i]),
    decreases k,
{
    if k > 0 {
        lemma_count_true_upto_bounds(s, k - 1);
        lemma_count_true_zero(s, k - 1);
    }
}

/// A set entry witnesses that the count over the whole sequence is
/// positive.
pub proof fn lemma_count_true_at_least_one(s: Seq<bool>, i: int)
    requires
        0 <= i < s.len(),
        s[i],
    ensures
        count_true(s) >= 1,
{
    lemma_count_true_update(s, i, false, s.len() as int);
    lemma_count_true_upto_bounds(s.update(i, false), s.len() as int);
}

/// The sequence left by `Vec::swap_remove` at position `j`.
pub open spec fn swap_removed<T>(s: Seq<T>, j: int) -> Seq<T> {
    s.update(j, s.last()).drop_last()
}

/// `swap_remove` on a duplicate-free sequence removes exactly the
/// element at `j` and keeps the rest, still duplicate-free.
pub proof fn lemma_swap_remove_distinct<T>(s: Seq<T>, j: int)
    requires
        s.no_duplicates(),
        0 <= j < s.len(),
    ensures
        swap_removed(s, j).len() == s.len() - 1,
        swap_removed(s, j).no_duplicates(),
        forall|x: T| swap_removed(s, j).contains(x) <==> (s.contains(x) && x != s[j]),
{
    let t = swap_removed(s, j);
    assert forall|x: T| t.contains(x) implies (s.contains(x) && x != s[j]) by {
        let i = choose|i: int| 0 <= i < t.len() && t[i] == x;
        if i == j {
            assert(s[s.len() - 1] == x);
        } else {
            assert(s[i] == x);
        }
        assert(s.contains(x));
        if x == s[j] {
            if i == j {
                assert(s[s.len() - 1] == s[j]);
                assert(j != s.len() - 1);
            }
        }
    }
    assert forall|x: T| (s.contains(x) && x != s[j]) implies t.contains(x) by {
        let i = choose|i: int| 0 <= i < s.len() && s[i] == x;
        if i == s.len() - 1 {
            if j == s.len() - 1 {
                assert(x == s[j]);
            } else {
                assert(t[j] == x);
            }
        } else if i == j {
            assert(x == s[j]);
        } else {
            assert(t[i] == x);
        }
    }
    assert forall|p: int, q: int| 0 <= p < q < t.len() implies t[p] != t[q] by {
        if t[p] == t[q] {
            if p == j {
                assert(s[s.len() - 1] == s[q]);
            } else if q == j {
                assert(s[p] == s[s.len() - 1]);
            } else {
                assert(s[p] == s[q]);
            }
        }
    }
}

/// Removing position `j` from a duplicate-free sequence removes
/// exactly the element at `j`.
pub proof fn lemma_remove_distinct<T>(s: Seq<T>, j: int)
    requires
        s.no_duplicates(),
        0 <= j < s.len(),
    ensures
        s.remove(j).len() == s.len() - 1,
        s.remove(j).no_duplicates(),
        forall|x: T| s.remove(j).contains(x) <==> (s.contains(x) && x != s[j]),
{
    let t = s.remove(j);
    assert forall|x: T| t.contains(x) implies (s.contains(x) && x != s[j]) by {
        let i = choose|i: int| 0 <= i < t.len() && t[i] == x;
        if i < j {
            assert(s[i] == x);
        } else {
            assert(s[i + 1] == x);
        }
    }
    assert forall|x: T| (s.contains(x) && x != s[j]) implies t.contains(x) by {
        let i = choose|i: int| 0 <= i < s.len() && s[i] == x;
        if i < j {
            assert(t[i] == x);
        } else {
            assert(t[i - 1] == x);
        }
    }
    assert forall|p: int, q: int| 0 <= p < q < t.len() implies t[p] != t[q] by {
        let p2: int = if p < j {
            p
        } else {
            p + 1
        };
        let q2: int = if q < j {
            q
        } else {
            q + 1
        };
        assert(t[p] == s[p2]);
        assert(t[q] == s[q2]);
    }
}

/// Pushing a fresh element keeps a sequence duplicate-free.
pub proof fn lemma_push_no_duplicates<T>(s: Seq<T>, v: T)
    requires
        s.no_duplicates(),
        !s.contains(v),
    ensures
        s.push(v).no_duplicates(),
{
    assert forall|p: int, q: int| 0 <= p < q < s.push(v).len() implies s.push(v)[p] != s.push(v)[q]
        by {
        if q == s.len() {
            assert(s[p] == s.push(v)[p]);
        }
    }
}

/// A pushed element appears in the result, and nothing else changes.
pub proof fn lemma_push_contains<T>(s: Seq<T>, v: T)
    ensures
        forall|x: T| s.push(v).contains(x) <==> (s.contains(x) || x == v),
{
    assert forall|x: T| s.push(v).contains(x) implies (s.contains(x) || x == v) by {
        let i = choose|i: int| 0 <= i < s.push(v).len() && s.push(v)[i] == x;
        if i < s.len() {
            assert(s[i] == x);
        }
    }
    assert forall|x: T| (s.contains(x) || x == v) implies s.push(v).contains(x) by {
        if s.contains(x) {
            let i = choose|i: int| 0 <= i < s.len() && s[i] == x;
            assert(s.push(v)[i] == x);
        } else {
            assert(s.push(v)[s.len() as int] == x);
        }
    }
}

} // verus!
