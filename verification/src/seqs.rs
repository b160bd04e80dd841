//! Facts about sequences used by the model's lookups.
use vstd::prelude::*;

verus! {

/// Position of the first occurrence of `x` in `s`, or `-1`.
pub open spec fn first_pos<A>(s: Seq<A>, x: A) -> int
    decreases s.len(),
{
    if s.len() == 0 {
        -1
    } else {
        let p = first_pos(s.drop_last(), x);
        if p >= 0 {
            p
        } else if s.last() == x {
            s.len() - 1
        } else {
            -1
        }
    }
}

/// `first_pos` is the least index holding `x`, or `-1` when there is none.
pub proof fn lemma_first_pos<A>(s: Seq<A>, x: A)
    ensures
        -1 <= first_pos(s, x) < s.len(),
        first_pos(s, x) >= 0 ==> s[first_pos(s, x)] == x,
        forall|k: int| 0 <= k < s.len() && (first_pos(s, x) < 0 || k < first_pos(s, x)) ==> s[k] != x,
        first_pos(s, x) < 0 <==> !s.contains(x),
    decreases s.len(),
{
    if s.len() > 0 {
        lemma_first_pos(s.drop_last(), x);
        assert forall|k: int| 0 <= k < s.len() - 1 implies s[k] == s.drop_last()[k] by {}
        if first_pos(s, x) >= 0 {
            assert(s.contains(x));
        } else {
            assert forall|k: int| 0 <= k < s.len() implies s[k] != x by {
                if k < s.len() - 1 {
                    assert(s.drop_last()[k] != x);
                }
            }
        }
    }
}

/// A prefix that already holds `x` fixes its first position.
pub proof fn lemma_first_pos_prefix<A>(s: Seq<A>, j: int, x: A)
    requires
        0 <= j <= s.len(),
        first_pos(s.take(j), x) >= 0,
    ensures
        first_pos(s, x) == first_pos(s.take(j), x),
    decreases s.len() - j,
{
    if j < s.len() {
        assert(s.take(j + 1).drop_last() =~= s.take(j));
        lemma_first_pos_prefix(s, j + 1, x);
    } else {
        assert(s.take(j) =~= s);
    }
}

/// Extending a prefix with a non-matching element keeps `x` absent.
pub proof fn lemma_first_pos_step<A>(s: Seq<A>, j: int, x: A)
    requires
        0 <= j < s.len(),
    ensures
        first_pos(s.take(j + 1), x) == if first_pos(s.take(j), x) >= 0 {
            first_pos(s.take(j), x)
        } else if s[j] == x {
            j
        } else {
            -1
        },
{
    assert(s.take(j + 1).drop_last() =~= s.take(j));
}

/// Position of the last occurrence of `x` in `s`, or `-1`.
pub open spec fn last_pos<A>(s: Seq<A>, x: A) -> int
    decreases s.len(),
{
    if s.len() == 0 {
        -1
    } else if s.last() == x {
        s.len() - 1
    } else {
        last_pos(s.drop_last(), x)
    }
}

/// `last_pos` is the greatest index holding `x`, or `-1` when there is none.
pub proof fn lemma_last_pos<A>(s: Seq<A>, x: A)
    ensures
        -1 <= last_pos(s, x) < s.len(),
        last_pos(s, x) >= 0 ==> s[last_pos(s, x)] == x,
        forall|k: int| 0 <= k < s.len() && k > last_pos(s, x) ==> s[k] != x,
        last_pos(s, x) < 0 <==> !s.contains(x),
    decreases s.len(),
{
    if s.len() > 0 {
        lemma_last_pos(s.drop_last(), x);
        assert forall|k: int| 0 <= k < s.len() - 1 implies s[k] == s.drop_last()[k] by {}
        if last_pos(s, x) >= 0 {
            assert(s.contains(x));
        } else {
            assert forall|k: int| 0 <= k < s.len() implies s[k] != x by {
                if k < s.len() - 1 {
                    assert(s.drop_last()[k] != x);
                }
            }
        }
    }
}

/// A duplicate-free sequence whose elements all occur in `u` is no longer than `u`.
pub proof fn lemma_distinct_bound<A>(v: Seq<A>, u: Seq<A>)
    requires
        v.no_duplicates(),
        forall|i: int| 0 <= i < v.len() ==> u.contains(#[trigger] v[i]),
    ensures
        v.len() <= u.len(),
{
    v.unique_seq_to_set();
    u.lemma_cardinality_of_set();
    assert(v.to_set().subset_of(u.to_set())) by {
        assert forall|x: A| v.to_set().contains(x) implies u.to_set().contains(x) by {
            let i = choose|i: int| 0 <= i < v.len() && v[i] == x;
            assert(u.contains(v[i]));
        }
    }
    vstd::set_lib::lemma_len_subset(v.to_set(), u.to_set());
}

/// A duplicate-free sequence as long as `u` whose elements all occur in `u`
/// leaves no room for a repeat in `u`.
pub proof fn lemma_full_distinct<A>(v: Seq<A>, u: Seq<A>)
    requires
        v.no_duplicates(),
        forall|i: int| 0 <= i < v.len() ==> u.contains(#[trigger] v[i]),
        v.len() == u.len(),
    ensures
        u.no_duplicates(),
{
    v.unique_seq_to_set();
    u.lemma_cardinality_of_set();
    assert(v.to_set().subset_of(u.to_set())) by {
        assert forall|x: A| v.to_set().contains(x) implies u.to_set().contains(x) by {
            let i = choose|i: int| 0 <= i < v.len() && v[i] == x;
            assert(u.contains(v[i]));
        }
    }
    vstd::set_lib::lemma_len_subset(v.to_set(), u.to_set());
    u.lemma_no_dup_set_cardinality();
}

} // verus!
