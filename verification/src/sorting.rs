//! The stable sort used by the collection, specified exactly: an insertion
//! sort in which each element is placed after every already-placed element
//! that does not compare greater than it.  Lemmas relate this exact
//! description to sortedness, stability under ties, and permutation.

use vstd::prelude::*;

verus! {

use core::cmp::Ordering;
use vstd::multiset::Multiset;
use vstd::relations::sorted_by;
use crate::order::{lex_cmp, lex_cmp_fn, rev_lex_cmp_fn, lemma_lex_cmp_equal_iff,
    lemma_lex_cmp_flip, lemma_lex_cmp_trans};

/// Inserts `x` into `s` just after the last element of `s` that does not
/// compare greater than `x`; every later element shifts one place up.
pub open spec fn insert_ordered(
    s: Seq<Seq<char>>,
    x: Seq<char>,
    cmp: spec_fn(Seq<char>, Seq<char>) -> Ordering,
) -> Seq<Seq<char>>
    decreases s.len(),
{
    if s.len() == 0 {
        seq![x]
    } else if cmp(s.last(), x) == Ordering::Greater {
        insert_ordered(s.drop_last(), x, cmp).push(s.last())
    } else {
        s.push(x)
    }
}

/// Sorts `s` by inserting its elements, in order of appearance, with
/// `insert_ordered`.  This is the textbook stable insertion sort.
pub open spec fn stable_sort_by(
    s: Seq<Seq<char>>,
    cmp: spec_fn(Seq<char>, Seq<char>) -> Ordering,
) -> Seq<Seq<char>>
    decreases s.len(),
{
    if s.len() == 0 {
        Seq::empty()
    } else {
        insert_ordered(stable_sort_by(s.drop_last(), cmp), s.last(), cmp)
    }
}

/// The non-strict "less than or equal" relation induced by a comparator.
pub open spec fn cmp_le_fn(
    cmp: spec_fn(Seq<char>, Seq<char>) -> Ordering,
) -> spec_fn(Seq<char>, Seq<char>) -> bool {
    |a: Seq<char>, b: Seq<char>| cmp(a, b) != Ordering::Greater
}

/// Membership in the tie class of `key` under a comparator.
pub open spec fn equals_key(
    cmp: spec_fn(Seq<char>, Seq<char>) -> Ordering,
    key: Seq<char>,
) -> spec_fn(Seq<char>) -> bool {
    |e: Seq<char>| cmp(e, key) == Ordering::Equal
}

/// A comparator never calls both orders of a pair greater.
pub open spec fn cmp_total(cmp: spec_fn(Seq<char>, Seq<char>) -> Ordering) -> bool {
    forall|a: Seq<char>, b: Seq<char>|
        #[trigger] cmp(a, b) == Ordering::Greater ==> cmp(b, a) != Ordering::Greater
}

/// The induced "not greater" relation is transitive.
pub open spec fn cmp_transitive(cmp: spec_fn(Seq<char>, Seq<char>) -> Ordering) -> bool {
    forall|a: Seq<char>, b: Seq<char>, c: Seq<char>|
        #[trigger] cmp(a, b) != Ordering::Greater && #[trigger] cmp(b, c) != Ordering::Greater
            ==> cmp(a, c) != Ordering::Greater
}

/// Anything greater than one member of a tie class is greater than its key.
pub open spec fn cmp_coherent(cmp: spec_fn(Seq<char>, Seq<char>) -> Ordering) -> bool {
    forall|a: Seq<char>, b: Seq<char>, c: Seq<char>|
        #[trigger] cmp(a, b) == Ordering::Greater && #[trigger] cmp(b, c) == Ordering::Equal
            ==> cmp(a, c) == Ordering::Greater
}

/// `insert_ordered` places `x` exactly at the boundary of the trailing run
/// of elements greater than `x`.
pub proof fn lemma_insert_ordered_at(
    s: Seq<Seq<char>>,
    x: Seq<char>,
    cmp: spec_fn(Seq<char>, Seq<char>) -> Ordering,
    k: int,
)
    requires
        0 <= k <= s.len(),
        forall|j: int| k <= j < s.len() ==> cmp(#[trigger] s[j], x) == Ordering::Greater,
        k > 0 ==> cmp(s[k - 1], x) != Ordering::Greater,
    ensures
        insert_ordered(s, x, cmp) == s.insert(k, x),
    decreases s.len(),
{
    if s.len() == 0 {
        assert(insert_ordered(s, x, cmp) =~= s.insert(0, x));
    } else if k == s.len() {
        assert(cmp(s.last(), x) != Ordering::Greater);
        assert(s.push(x) =~= s.insert(k, x));
    } else {
        assert(cmp(s.last(), x) == Ordering::Greater);
        lemma_insert_ordered_at(s.drop_last(), x, cmp, k);
        assert(s.drop_last().insert(k, x).push(s.last()) =~= s.insert(k, x));
    }
}

/// Sorting one more element: the sort of a longer prefix is the insertion
/// of the next element into the sort of the shorter prefix.
pub proof fn lemma_stable_sort_by_step(
    s: Seq<Seq<char>>,
    n: int,
    cmp: spec_fn(Seq<char>, Seq<char>) -> Ordering,
)
    requires
        0 <= n < s.len(),
    ensures
        stable_sort_by(s.take(n + 1), cmp) == insert_ordered(
            stable_sort_by(s.take(n), cmp),
            s[n],
            cmp,
        ),
{
    reveal_with_fuel(stable_sort_by, 2);
    assert(s.take(n + 1).drop_last() =~= s.take(n));
    assert(s.take(n + 1).last() == s[n]);
}

/// Inserting adds one occurrence of the inserted element and keeps all others.
pub proof fn lemma_insert_ordered_multiset(
    s: Seq<Seq<char>>,
    x: Seq<char>,
    cmp: spec_fn(Seq<char>, Seq<char>) -> Ordering,
)
    ensures
        insert_ordered(s, x, cmp).to_multiset() == s.to_multiset().insert(x),
    decreases s.len(),
{
    broadcast use vstd::seq_lib::group_to_multiset_ensures;

    if s.len() == 0 {
        assert(seq![x] =~= Seq::<Seq<char>>::empty().push(x));
        assert(Seq::<Seq<char>>::empty().push(x).to_multiset() =~= Multiset::empty().insert(x));
        assert(s.to_multiset() =~= Multiset::empty());
    } else if cmp(s.last(), x) == Ordering::Greater {
        lemma_insert_ordered_multiset(s.drop_last(), x, cmp);
        assert(s.drop_last().push(s.last()) =~= s);
        assert(insert_ordered(s.drop_last(), x, cmp).push(s.last()).to_multiset()
            =~= insert_ordered(s.drop_last(), x, cmp).to_multiset().insert(s.last()));
        assert(s.drop_last().to_multiset().insert(x).insert(s.last())
            =~= s.drop_last().to_multiset().insert(s.last()).insert(x));
        assert(s.drop_last().push(s.last()).to_multiset()
            =~= s.drop_last().to_multiset().insert(s.last()));
    } else {
        assert(s.push(x).to_multiset() =~= s.to_multiset().insert(x));
    }
}

/// Sorting permutes the sequence: the multiset of elements is unchanged.
pub proof fn lemma_stable_sort_by_multiset(
    s: Seq<Seq<char>>,
    cmp: spec_fn(Seq<char>, Seq<char>) -> Ordering,
)
    ensures
        stable_sort_by(s, cmp).to_multiset() == s.to_multiset(),
    decreases s.len(),
{
    broadcast use vstd::seq_lib::group_to_multiset_ensures;

    if s.len() == 0 {
        assert(stable_sort_by(s, cmp) =~= s);
    } else {
        lemma_stable_sort_by_multiset(s.drop_last(), cmp);
        lemma_insert_ordered_multiset(stable_sort_by(s.drop_last(), cmp), s.last(), cmp);
        assert(s.drop_last().push(s.last()) =~= s);
        assert(s.drop_last().push(s.last()).to_multiset()
            =~= s.drop_last().to_multiset().insert(s.last()));
    }
}

/// Every element of the result of an insertion is the inserted element or
/// one of the original elements.
proof fn lemma_insert_ordered_elems(
    s: Seq<Seq<char>>,
    x: Seq<char>,
    cmp: spec_fn(Seq<char>, Seq<char>) -> Ordering,
    i: int,
)
    requires
        0 <= i < insert_ordered(s, x, cmp).len(),
    ensures
        insert_ordered(s, x, cmp).len() == s.len() + 1,
        insert_ordered(s, x, cmp)[i] == x || exists|j: int|
            0 <= j < s.len() && insert_ordered(s, x, cmp)[i] == s[j],
    decreases s.len(),
{
    if s.len() == 0 {
    } else if cmp(s.last(), x) == Ordering::Greater {
        let inner = insert_ordered(s.drop_last(), x, cmp);
        if i < inner.len() {
            lemma_insert_ordered_elems(s.drop_last(), x, cmp, i);
            if inner[i] != x {
                let j = choose|j: int| 0 <= j < s.drop_last().len() && inner[i] == s.drop_last()[j];
                assert(insert_ordered(s, x, cmp)[i] == s[j]);
            }
        } else {
            lemma_insert_ordered_elems(s.drop_last(), x, cmp, 0);
            assert(insert_ordered(s, x, cmp)[i] == s[s.len() - 1]);
        }
    } else {
        if i < s.len() {
            assert(insert_ordered(s, x, cmp)[i] == s[i]);
        }
    }
}

/// Inserting into a sorted sequence keeps it sorted.
proof fn lemma_insert_ordered_sorted(
    s: Seq<Seq<char>>,
    x: Seq<char>,
    cmp: spec_fn(Seq<char>, Seq<char>) -> Ordering,
)
    requires
        cmp_total(cmp),
        cmp_transitive(cmp),
        sorted_by(s, cmp_le_fn(cmp)),
    ensures
        sorted_by(insert_ordered(s, x, cmp), cmp_le_fn(cmp)),
    decreases s.len(),
{
    let le = cmp_le_fn(cmp);
    let out = insert_ordered(s, x, cmp);
    if s.len() == 0 {
        assert(sorted_by(out, le));
    } else if cmp(s.last(), x) == Ordering::Greater {
        assert(sorted_by(s.drop_last(), le));
        lemma_insert_ordered_sorted(s.drop_last(), x, cmp);
        let inner = insert_ordered(s.drop_last(), x, cmp);
        // every element of `inner` is at most `s.last()`
        assert forall|i: int, j: int| 0 <= i < j < out.len() implies le(out[i], out[j]) by {
            if j < out.len() - 1 {
                assert(out[i] == inner[i] && out[j] == inner[j]);
            } else {
                assert(out[i] == inner[i]);
                lemma_insert_ordered_elems(s.drop_last(), x, cmp, i);
                if inner[i] == x {
                    assert(cmp(x, s.last()) != Ordering::Greater);
                } else {
                    let m = choose|m: int|
                        0 <= m < s.drop_last().len() && inner[i] == s.drop_last()[m];
                    assert(le(s[m], s[s.len() - 1]));
                }
                assert(out[j] == s.last());
            }
        }
    } else {
        assert forall|i: int, j: int| 0 <= i < j < out.len() implies le(out[i], out[j]) by {
            if j == out.len() - 1 {
                assert(out[j] == x);
                assert(out[i] == s[i]);
                assert(le(s.last(), x));
                if i < s.len() - 1 {
                    assert(le(s[i], s.last()));
                }
            } else {
                assert(out[i] == s[i] && out[j] == s[j]);
            }
        }
    }
}

/// The stable sort orders its input by the comparator's non-strict relation.
pub proof fn lemma_stable_sort_by_sorted(
    s: Seq<Seq<char>>,
    cmp: spec_fn(Seq<char>, Seq<char>) -> Ordering,
)
    requires
        cmp_total(cmp),
        cmp_transitive(cmp),
    ensures
        sorted_by(stable_sort_by(s, cmp), cmp_le_fn(cmp)),
    decreases s.len(),
{
    if s.len() == 0 {
    } else {
        lemma_stable_sort_by_sorted(s.drop_last(), cmp);
        lemma_insert_ordered_sorted(stable_sort_by(s.drop_last(), cmp), s.last(), cmp);
    }
}

/// Unfolds `filter` over `push`: the filtered sequence grows by the pushed
/// element exactly when the predicate holds of it.
proof fn lemma_filter_push(v: Seq<Seq<char>>, l: Seq<char>, pred: spec_fn(Seq<char>) -> bool)
    ensures
        pred(l) ==> v.push(l).filter(pred) == v.filter(pred).push(l),
        !pred(l) ==> v.push(l).filter(pred) == v.filter(pred),
{
    reveal_with_fuel(Seq::filter, 2);
    assert(v.push(l).drop_last() =~= v);
    assert(v.push(l).last() == l);
}

/// Filtering an insertion by a tie class: the inserted element lands at the
/// end of its own class, and every other class is untouched.
proof fn lemma_insert_ordered_filter(
    s: Seq<Seq<char>>,
    x: Seq<char>,
    cmp: spec_fn(Seq<char>, Seq<char>) -> Ordering,
    key: Seq<char>,
)
    requires
        cmp_coherent(cmp),
    ensures
        insert_ordered(s, x, cmp).filter(equals_key(cmp, key)) == if cmp(x, key)
            == Ordering::Equal {
            s.filter(equals_key(cmp, key)).push(x)
        } else {
            s.filter(equals_key(cmp, key))
        },
    decreases s.len(),
{
    let pred = equals_key(cmp, key);
    if s.len() == 0 {
        assert(s =~= Seq::<Seq<char>>::empty());
        assert(seq![x] =~= s.push(x));
        lemma_filter_push(s, x, pred);
    } else if cmp(s.last(), x) == Ordering::Greater {
        lemma_insert_ordered_filter(s.drop_last(), x, cmp, key);
        let inner = insert_ordered(s.drop_last(), x, cmp);
        lemma_filter_push(inner, s.last(), pred);
        lemma_filter_push(s.drop_last(), s.last(), pred);
        assert(s.drop_last().push(s.last()) =~= s);
        if cmp(x, key) == Ordering::Equal {
            assert(cmp(s.last(), key) == Ordering::Greater);
            assert(!pred(s.last()));
        }
    } else {
        lemma_filter_push(s, x, pred);
    }
}

/// Stability: sorting does not reorder the elements of any tie class.  For
/// every key, the subsequence of elements that compare equal to that key is
/// the same before and after sorting.
pub proof fn lemma_stable_sort_by_ties(
    s: Seq<Seq<char>>,
    cmp: spec_fn(Seq<char>, Seq<char>) -> Ordering,
    key: Seq<char>,
)
    requires
        cmp_coherent(cmp),
    ensures
        stable_sort_by(s, cmp).filter(equals_key(cmp, key)) == s.filter(equals_key(cmp, key)),
    decreases s.len(),
{
    let pred = equals_key(cmp, key);
    if s.len() == 0 {
        assert(stable_sort_by(s, cmp) =~= s);
    } else {
        lemma_stable_sort_by_ties(s.drop_last(), cmp, key);
        lemma_insert_ordered_filter(stable_sort_by(s.drop_last(), cmp), s.last(), cmp, key);
        lemma_filter_push(s.drop_last(), s.last(), pred);
        assert(s.drop_last().push(s.last()) =~= s);
    }
}

/// The default order satisfies every law the sorting lemmas ask for.  The
/// hypothesis admits any function that agrees with `lex_cmp` pointwise, so
/// the laws transfer to any way of writing the default order down.
pub proof fn lemma_lex_laws_for(cmp: spec_fn(Seq<char>, Seq<char>) -> Ordering)
    requires
        forall|a: Seq<char>, b: Seq<char>| #[trigger] cmp(a, b) == lex_cmp(a, b),
    ensures
        cmp_total(cmp),
        cmp_transitive(cmp),
        cmp_coherent(cmp),
{
    assert forall|a: Seq<char>, b: Seq<char>| #[trigger] cmp(a, b) == Ordering::Greater implies cmp(
        b,
        a,
    ) != Ordering::Greater by {
        lemma_lex_cmp_flip(b, a);
        lemma_lex_cmp_flip(a, b);
    }
    assert forall|a: Seq<char>, b: Seq<char>, c: Seq<char>|
        #[trigger] cmp(a, b) != Ordering::Greater && #[trigger] cmp(b, c)
            != Ordering::Greater implies cmp(a, c) != Ordering::Greater by {
        lemma_lex_cmp_trans(a, b, c);
    }
    assert forall|a: Seq<char>, b: Seq<char>, c: Seq<char>|
        #[trigger] cmp(a, b) == Ordering::Greater && #[trigger] cmp(b, c)
            == Ordering::Equal implies cmp(a, c) == Ordering::Greater by {
        lemma_lex_cmp_equal_iff(b, c);
    }
}

/// The reversed default order satisfies the same laws.
pub proof fn lemma_rev_lex_laws_for(cmp: spec_fn(Seq<char>, Seq<char>) -> Ordering)
    requires
        forall|a: Seq<char>, b: Seq<char>| #[trigger] cmp(a, b) == lex_cmp(b, a),
    ensures
        cmp_total(cmp),
        cmp_transitive(cmp),
        cmp_coherent(cmp),
{
    assert forall|a: Seq<char>, b: Seq<char>| #[trigger] cmp(a, b) == Ordering::Greater implies cmp(
        b,
        a,
    ) != Ordering::Greater by {
        lemma_lex_cmp_flip(a, b);
        lemma_lex_cmp_flip(b, a);
    }
    assert forall|a: Seq<char>, b: Seq<char>, c: Seq<char>|
        #[trigger] cmp(a, b) != Ordering::Greater && #[trigger] cmp(b, c)
            != Ordering::Greater implies cmp(a, c) != Ordering::Greater by {
        lemma_lex_cmp_trans(c, b, a);
    }
    assert forall|a: Seq<char>, b: Seq<char>, c: Seq<char>|
        #[trigger] cmp(a, b) == Ordering::Greater && #[trigger] cmp(b, c)
            == Ordering::Equal implies cmp(a, c) == Ordering::Greater by {
        lemma_lex_cmp_equal_iff(c, b);
    }
}

/// Sorting with the default order yields a byte-lexicographically sorted
/// sequence in which every tie class keeps its insertion order.
pub proof fn lemma_default_sort(s: Seq<Seq<char>>, key: Seq<char>)
    ensures
        sorted_by(stable_sort_by(s, lex_cmp_fn()), cmp_le_fn(lex_cmp_fn())),
        stable_sort_by(s, lex_cmp_fn()).filter(equals_key(lex_cmp_fn(), key)) == s.filter(
            equals_key(lex_cmp_fn(), key),
        ),
        stable_sort_by(s, lex_cmp_fn()).to_multiset() == s.to_multiset(),
{
    lemma_lex_laws_for(lex_cmp_fn());
    lemma_stable_sort_by_sorted(s, lex_cmp_fn());
    lemma_stable_sort_by_ties(s, lex_cmp_fn(), key);
    lemma_stable_sort_by_multiset(s, lex_cmp_fn());
}

/// Sorting with the reversed order yields a reverse-lexicographically sorted
/// sequence in which every tie class keeps its insertion order.
pub proof fn lemma_reverse_sort(s: Seq<Seq<char>>, key: Seq<char>)
    ensures
        sorted_by(stable_sort_by(s, rev_lex_cmp_fn()), cmp_le_fn(rev_lex_cmp_fn())),
        stable_sort_by(s, rev_lex_cmp_fn()).filter(equals_key(rev_lex_cmp_fn(), key)) == s.filter(
            equals_key(rev_lex_cmp_fn(), key),
        ),
        stable_sort_by(s, rev_lex_cmp_fn()).to_multiset() == s.to_multiset(),
{
    lemma_rev_lex_laws_for(rev_lex_cmp_fn());
    lemma_stable_sort_by_sorted(s, rev_lex_cmp_fn());
    lemma_stable_sort_by_ties(s, rev_lex_cmp_fn(), key);
    lemma_stable_sort_by_multiset(s, rev_lex_cmp_fn());
}

} // verus!
