//! Counting facts about sequences of indices.
use vstd::prelude::*;
use vstd::set_lib::*;

verus! {

/// A sequence without duplicates whose elements lie in `[lo, hi)` has at
/// most `hi - lo` elements, and if it has exactly that many it holds every
/// index of the range.
pub proof fn lemma_distinct_in_range(s: Seq<usize>, lo: int, hi: int)
    requires
        lo <= hi,
        s.no_duplicates(),
        forall|i: int| 0 <= i < s.len() ==> lo <= #[trigger] s[i] < hi,
    ensures
        s.len() <= hi - lo,
        s.len() == hi - lo ==> forall|x: int| lo <= x < hi ==> #[trigger] s.contains(x as usize),
{
    let m = s.map_values(|x: usize| x as int);
    assert forall|i: int, j: int| 0 <= i < m.len() && 0 <= j < m.len() && i != j implies m[i] != m[j] by {
        assert(s[i] != s[j]);
    }
    assert(m.no_duplicates());
    m.unique_seq_to_set();
    lemma_int_range(lo, hi);
    assert(m.to_set().subset_of(set_int_range(lo, hi))) by {
        assert forall|x: int| m.to_set().contains(x) implies set_int_range(lo, hi).contains(x) by {
            let k = choose|k: int| 0 <= k < m.len() && m[k] == x;
            assert(lo <= s[k] < hi);
        }
    }
    lemma_len_subset(m.to_set(), set_int_range(lo, hi));
    if s.len() == hi - lo {
        assert forall|x: int| lo <= x < hi implies #[trigger] s.contains(x as usize) by {
            if !s.contains(x as usize) {
                assert(m.to_set().subset_of(set_int_range(lo, hi).remove(x))) by {
                    assert forall|y: int| m.to_set().contains(y) implies set_int_range(lo, hi).remove(x).contains(y) by {
                        let k = choose|k: int| 0 <= k < m.len() && m[k] == y;
                        assert(s[k] == y as usize);
                        assert(y != x);
                    }
                }
                vstd::set::axiom_set_remove_len(set_int_range(lo, hi), x);
                lemma_len_subset(m.to_set(), set_int_range(lo, hi).remove(x));
            }
        }
    }
}

/// A sequence that holds every index of `[lo, hi)` has at least `hi - lo`
/// elements.
pub proof fn lemma_covering_len(s: Seq<usize>, lo: int, hi: int)
    requires
        0 <= lo <= hi <= usize::MAX,
        forall|x: int| lo <= x < hi ==> #[trigger] s.contains(x as usize),
    ensures
        s.len() >= hi - lo,
{
    let m = s.map_values(|x: usize| x as int);
    lemma_int_range(lo, hi);
    assert(set_int_range(lo, hi).subset_of(m.to_set())) by {
        assert forall|x: int| set_int_range(lo, hi).contains(x) implies m.to_set().contains(x) by {
            assert(s.contains(x as usize));
            let k = choose|k: int| 0 <= k < s.len() && s[k] == x as usize;
            assert(m[k] == x);
        }
    }
    vstd::seq_lib::seq_to_set_is_finite(m);
    lemma_len_subset(set_int_range(lo, hi), m.to_set());
    m.lemma_cardinality_of_set();
}

/// Membership after a push.
pub proof fn lemma_push_contains(s: Seq<usize>, x: usize)
    ensures
        forall|y: usize| #[trigger] s.push(x).contains(y) <==> (s.contains(y) || y == x),
{
    assert forall|y: usize| #[trigger] s.push(x).contains(y) <==> (s.contains(y) || y == x) by {
        if s.push(x).contains(y) {
            let k = choose|k: int| 0 <= k < s.push(x).len() && s.push(x)[k] == y;
            if k < s.len() {
                assert(s[k] == y);
            }
        }
        if s.contains(y) {
            let k = choose|k: int| 0 <= k < s.len() && s[k] == y;
            assert(s.push(x)[k] == y);
        }
        if y == x {
            assert(s.push(x)[s.len() as int] == y);
        }
    }
}

/// Membership after removing the last element of a sequence without duplicates.
pub proof fn lemma_drop_last_contains(s: Seq<usize>)
    requires
        s.len() > 0,
        s.no_duplicates(),
    ensures
        forall|y: usize| #[trigger] s.drop_last().contains(y) <==> (s.contains(y) && y != s.last()),
{
    assert forall|y: usize| #[trigger] s.drop_last().contains(y) <==> (s.contains(y) && y != s.last()) by {
        if s.drop_last().contains(y) {
            let k = choose|k: int| 0 <= k < s.drop_last().len() && s.drop_last()[k] == y;
            assert(s[k] == y);
            assert(k != s.len() - 1);
        }
        if s.contains(y) && y != s.last() {
            let k = choose|k: int| 0 <= k < s.len() && s[k] == y;
            assert(k != s.len() - 1);
            assert(s.drop_last()[k] == y);
        }
    }
}

/// Pushing a new element keeps a sequence free of duplicates.
pub proof fn lemma_push_no_duplicates(s: Seq<usize>, x: usize)
    requires
        s.no_duplicates(),
        !s.contains(x),
    ensures
        s.push(x).no_duplicates(),
{
    assert forall|a: int, b: int|
        0 <= a < s.push(x).len() && 0 <= b < s.push(x).len() && a != b implies s.push(x)[a]
        != s.push(x)[b] by {
        if a < s.len() && b < s.len() {
            assert(s[a] != s[b]);
        } else if a < s.len() {
            assert(s.contains(s[a]));
        } else if b < s.len() {
            assert(s.contains(s[b]));
        }
    }
}

/// Membership and distinctness after removing position `i` of a sequence
/// without duplicates.
pub proof fn lemma_remove_contains(s: Seq<usize>, i: int)
    requires
        0 <= i < s.len(),
        s.no_duplicates(),
    ensures
        forall|y: usize| #[trigger] s.remove(i).contains(y) <==> (s.contains(y) && y != s[i]),
        s.remove(i).no_duplicates(),
        s.remove(i).len() == s.len() - 1,
{
    s.remove_ensures(i);
    let r = s.remove(i);
    assert forall|y: usize| #[trigger] r.contains(y) <==> (s.contains(y) && y != s[i]) by {
        if r.contains(y) {
            let k = choose|k: int| 0 <= k < r.len() && r[k] == y;
            if k < i {
                assert(s[k] == y);
            } else {
                assert(s[k + 1] == y);
            }
        }
        if s.contains(y) && y != s[i] {
            let k = choose|k: int| 0 <= k < s.len() && s[k] == y;
            if k < i {
                assert(r[k] == y);
            } else {
                assert(k != i);
                assert(r[k - 1] == y);
            }
        }
    }
    assert forall|a: int, b: int| 0 <= a < r.len() && 0 <= b < r.len() && a != b implies r[a] != r[b] by {
        let a1 = if a < i { a } else { a + 1 };
        let b1 = if b < i { b } else { b + 1 };
        assert(r[a] == s[a1]);
        assert(r[b] == s[b1]);
    }
}

/// Membership in a concatenation.
pub proof fn lemma_concat_contains(a: Seq<usize>, b: Seq<usize>)
    ensures
        forall|x: usize| #[trigger] (a + b).contains(x) <==> (a.contains(x) || b.contains(x)),
{
    assert forall|x: usize| #[trigger] (a + b).contains(x) <==> (a.contains(x) || b.contains(x)) by {
        if (a + b).contains(x) {
            let k = choose|k: int| 0 <= k < (a + b).len() && (a + b)[k] == x;
            if k < a.len() {
                assert(a[k] == x);
            } else {
                assert(b[k - a.len()] == x);
            }
        }
        if a.contains(x) {
            let k = choose|k: int| 0 <= k < a.len() && a[k] == x;
            assert((a + b)[k] == x);
        }
        if b.contains(x) {
            let k = choose|k: int| 0 <= k < b.len() && b[k] == x;
            assert((a + b)[k + a.len()] == x);
        }
    }
}

} // verus!
