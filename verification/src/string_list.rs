//! An ordered collection of text elements.  One struct serves two storage
//! strategies, chosen by the element type: `&str` elements borrow from
//! caller-owned text, `String` elements are independent copies.  Both
//! expose the same sequence operations, and every contract speaks of the
//! collection's view: the sequence of the elements' character sequences.

use vstd::prelude::*;

verus! {

use core::cmp::Ordering;
use vstd::relations::sorted_by;
use crate::order::{cmp_spec_fn, lex_cmp, lex_cmp_fn, lex_compare, Comparator, Lexicographic,
    ReverseLexicographic};
use crate::sorting::{cmp_le_fn, equals_key, lemma_default_sort, lemma_insert_ordered_at,
    lemma_rev_lex_laws_for, lemma_stable_sort_by_multiset, lemma_stable_sort_by_sorted,
    lemma_stable_sort_by_step, lemma_stable_sort_by_ties, stable_sort_by};

/// An element of a collection: a value that holds, or refers to, text.
pub trait StrElem: View<V = Seq<char>> + Sized {
    /// Read-only access to the element's text.
    fn elem_str(&self) -> (r: &str)
        ensures
            r@ == self@,
    ;
}

impl<'a> StrElem for &'a str {
    fn elem_str(&self) -> (r: &str) {
        *self
    }
}

impl StrElem for String {
    fn elem_str(&self) -> (r: &str) {
        self.as_str()
    }
}

/// The texts of a sequence of elements.
pub open spec fn views<S: View<V = Seq<char>>>(s: Seq<S>) -> Seq<Seq<char>> {
    Seq::new(s.len(), |i: int| s[i]@)
}

/// An ordered collection of text elements with an optional custom
/// comparator.  `S` fixes the storage strategy: `&str` elements borrow the
/// caller's text, `String` elements are independent copies.  The comparator
/// slot starts empty; installing a comparator replaces the default
/// byte-lexicographic rule for both sorting and lookup.
pub struct StringListBase<S, C> {
    pub list: Vec<S>,
    pub compare: Option<C>,
}

impl<S: View<V = Seq<char>>, C> View for StringListBase<S, C> {
    type V = Seq<Seq<char>>;

    open spec fn view(&self) -> Seq<Seq<char>> {
        views(self.list@)
    }
}

/// A collection whose elements are references into caller-owned text.
pub type StringListRef<'a> = StringListBase<&'a str, Lexicographic>;

/// A collection whose elements are independent copies.
pub type StringListDupe = StringListBase<String, Lexicographic>;

/// Some call of `keep` on the text `text` may return `b`.
pub open spec fn keep_may_return<F: Fn(&str) -> bool>(keep: F, text: Seq<char>, b: bool) -> bool {
    exists|t: &str| t@ == text && #[trigger] call_ensures(keep, (t,), b)
}

/// The elements of `s` selected by the boolean mask `m`, in order.
pub open spec fn filter_by_mask(s: Seq<Seq<char>>, m: Seq<bool>) -> Seq<Seq<char>>
    recommends
        s.len() == m.len(),
    decreases s.len(),
{
    if s.len() == 0 || m.len() == 0 {
        Seq::empty()
    } else if m.last() {
        filter_by_mask(s.drop_last(), m.drop_last()).push(s.last())
    } else {
        filter_by_mask(s.drop_last(), m.drop_last())
    }
}

/// Unfolds `filter_by_mask` over a parallel `push`.
proof fn lemma_filter_by_mask_push(s: Seq<Seq<char>>, m: Seq<bool>, x: Seq<char>, b: bool)
    requires
        s.len() == m.len(),
    ensures
        filter_by_mask(s.push(x), m.push(b)) == if b {
            filter_by_mask(s, m).push(x)
        } else {
            filter_by_mask(s, m)
        },
{
    reveal_with_fuel(filter_by_mask, 2);
    assert(s.push(x).drop_last() =~= s);
    assert(m.push(b).drop_last() =~= m);
}

/// `ix` lists, in strictly increasing order, source positions of `s` that
/// the mask `m` selects, and `r` is exactly the elements of `s` at those
/// positions, in that order.
pub open spec fn is_ordered_selection(
    ix: Seq<int>,
    s: Seq<Seq<char>>,
    m: Seq<bool>,
    r: Seq<Seq<char>>,
) -> bool {
    &&& ix.len() == r.len()
    &&& forall|k: int|
        0 <= k < ix.len() ==> 0 <= #[trigger] ix[k] < s.len() && m[ix[k]] && r[k] == s[ix[k]]
    &&& forall|k1: int, k2: int| #![trigger ix[k1], ix[k2]] 0 <= k1 < k2 < ix.len() ==> ix[k1] < ix[k2]
}

/// Order preservation under filtering: the retained elements are the
/// mask-selected elements of the source, in their original relative order.
pub proof fn lemma_filter_by_mask_ordered(s: Seq<Seq<char>>, m: Seq<bool>)
    requires
        s.len() == m.len(),
    ensures
        exists|ix: Seq<int>| is_ordered_selection(ix, s, m, filter_by_mask(s, m)),
    decreases s.len(),
{
    reveal_with_fuel(filter_by_mask, 2);
    if s.len() == 0 {
        let ix = Seq::<int>::empty();
        assert(is_ordered_selection(ix, s, m, filter_by_mask(s, m)));
    } else {
        lemma_filter_by_mask_ordered(s.drop_last(), m.drop_last());
        let inner = choose|ix: Seq<int>|
            is_ordered_selection(
                ix,
                s.drop_last(),
                m.drop_last(),
                filter_by_mask(s.drop_last(), m.drop_last()),
            );
        if m.last() {
            let ix = inner.push(s.len() - 1);
            assert(is_ordered_selection(ix, s, m, filter_by_mask(s, m)));
        } else {
            assert(is_ordered_selection(inner, s, m, filter_by_mask(s, m)));
        }
    }
}

/// Index of the first occurrence of `d` in `s`, or `s.len()` if `s` does
/// not contain `d`.
pub open spec fn first_delim(s: Seq<char>, d: char) -> nat
    decreases s.len(),
{
    if s.len() == 0 {
        0
    } else if s[0] == d {
        0
    } else {
        1 + first_delim(s.drop_first(), d)
    }
}

/// `first_delim` is the unique position with no delimiter before it and a
/// delimiter (or the end of the text) at it.
proof fn lemma_first_delim_is(s: Seq<char>, d: char, k: int)
    requires
        0 <= k <= s.len(),
        forall|j: int| 0 <= j < k ==> s[j] != d,
        k < s.len() ==> s[k] == d,
    ensures
        first_delim(s, d) == k,
    decreases s.len(),
{
    if s.len() == 0 {
    } else if s[0] == d {
        assert(k == 0);
    } else {
        assert(k > 0);
        assert forall|j: int| 0 <= j < k - 1 implies s.drop_first()[j] != d by {
            assert(s.drop_first()[j] == s[j + 1]);
        }
        if k - 1 < s.drop_first().len() {
            assert(s.drop_first()[k - 1] == s[k]);
        }
        lemma_first_delim_is(s.drop_first(), d, k - 1);
    }
}

/// The pieces produced by splitting `s` on `d`, having already produced
/// `produced` pieces against the budget `max_split`.  While the budget
/// lasts, the text before each next delimiter becomes a piece; once the
/// piece about to be produced would exceed the budget, the whole remaining
/// text — further delimiters included — becomes the final piece.  A
/// negative `max_split` means an unlimited budget.
pub open spec fn split_pieces(s: Seq<char>, d: char, max_split: int, produced: int) -> Seq<
    Seq<char>,
>
    decreases s.len(),
{
    if max_split >= 0 && produced + 1 > max_split {
        seq![s]
    } else {
        let i = first_delim(s, d);
        if i < s.len() {
            seq![s.take(i as int)] + split_pieces(s.skip(i as int + 1), d, max_split, produced + 1)
        } else {
            seq![s]
        }
    }
}

/// With budget left and a delimiter present, splitting peels off one piece.
proof fn lemma_split_pieces_step(s: Seq<char>, d: char, max_split: int, produced: int)
    requires
        !(max_split >= 0 && produced + 1 > max_split),
        first_delim(s, d) < s.len(),
    ensures
        split_pieces(s, d, max_split, produced) == seq![s.take(first_delim(s, d) as int)]
            + split_pieces(s.skip(first_delim(s, d) as int + 1), d, max_split, produced + 1),
{
    reveal_with_fuel(split_pieces, 2);
}

/// Some call of `visit` on the text `text` may return `r`.
pub open spec fn visit_may_return<F: Fn(&str) -> i32>(visit: F, text: Seq<char>, r: i32) -> bool {
    exists|t: &str| t@ == text && #[trigger] call_ensures(visit, (t,), r)
}

impl<S: StrElem, C: Comparator> StringListBase<S, C> {
    /// The order currently in effect: the installed comparator's order, or
    /// the default byte-lexicographic order when none is installed.
    pub open spec fn active_cmp(&self) -> spec_fn(Seq<char>, Seq<char>) -> Ordering {
        match self.compare {
            Option::Some(c) => cmp_spec_fn(c),
            Option::None => lex_cmp_fn(),
        }
    }

    /// True if the element at `i` compares equal to `key` under the active
    /// order.
    pub open spec fn matches_at(&self, key: Seq<char>, i: int) -> bool {
        self.active_cmp()(self@[i], key) == Ordering::Equal
    }

    /// Creates an empty collection with no comparator installed.
    pub fn new() -> (r: Self)
        ensures
            r@ == Seq::<Seq<char>>::empty(),
            r.compare.is_none(),
    {
        let r = StringListBase { list: Vec::new(), compare: None };
        proof {
            assert(r@ =~= Seq::<Seq<char>>::empty());
        }
        r
    }

    /// Removes all elements; the comparator stays installed.  Borrowed
    /// source text is unaffected; owned copies are released.
    pub fn clear(&mut self)
        ensures
            final(self)@ == Seq::<Seq<char>>::empty(),
            final(self).compare == old(self).compare,
    {
        self.list.clear();
        proof {
            assert(self@ =~= Seq::<Seq<char>>::empty());
        }
    }

    /// Compares two texts under the active order.
    fn compare_strs(&self, a: &str, b: &str) -> (r: Ordering)
        ensures
            r == self.active_cmp()(a@, b@),
    {
        match &self.compare {
            Some(c) => c.compare(a, b),
            None => lex_compare(a, b),
        }
    }

    /// Calls `visit` on each element's text in order.  Stops at the first
    /// call that returns non-zero and returns that value; returns zero once
    /// every element has been visited.
    pub fn for_each<F: Fn(&str) -> i32>(&self, visit: F) -> (r: i32)
        requires
            forall|t: &str| #[trigger] call_requires(visit, (t,)),
        ensures
            r == 0 ==> forall|i: int|
                0 <= i < self@.len() ==> visit_may_return(visit, #[trigger] self@[i], 0),
            r != 0 ==> exists|k: int|
                0 <= k < self@.len() && #[trigger] visit_may_return(visit, self@[k], r) && (
                forall|j: int| 0 <= j < k ==> visit_may_return(visit, #[trigger] self@[j], 0)),
    {
        let mut i: usize = 0;
        while i < self.list.len()
            invariant
                i <= self.list@.len(),
                forall|t: &str| #[trigger] call_requires(visit, (t,)),
                forall|j: int| 0 <= j < i ==> visit_may_return(visit, #[trigger] self@[j], 0),
            decreases self.list@.len() - i,
        {
            let text = self.list[i].elem_str();
            let ret = visit(text);
            if ret != 0 {
                proof {
                    assert(visit_may_return(visit, self@[i as int], ret));
                }
                return ret;
            }
            proof {
                assert(visit_may_return(visit, self@[i as int], 0));
            }
            i += 1;
        }
        0
    }

    /// Retains only the elements whose text `keep` accepts, in a single
    /// left-to-right pass: the relative order of retained elements is
    /// unchanged, and removed owned copies are released.  The result is
    /// the mask-filter of the old contents by some sequence of decisions,
    /// each a possible verdict of `keep` on the corresponding element.
    pub fn keep_filtered<F: Fn(&str) -> bool>(&mut self, keep: F)
        requires
            forall|t: &str| #[trigger] call_requires(keep, (t,)),
        ensures
            final(self).compare == old(self).compare,
            exists|ds: Seq<bool>|
                ds.len() == old(self)@.len() && (forall|i: int|
                    0 <= i < ds.len() ==> keep_may_return(keep, old(self)@[i], #[trigger] ds[i]))
                    && final(self)@ == filter_by_mask(old(self)@, ds),
    {
        let ghost orig = self@;
        let ghost mut ds: Seq<bool> = Seq::empty();
        let mut kept: Vec<S> = Vec::new();
        while self.list.len() > 0
            invariant
                forall|t: &str| #[trigger] call_requires(keep, (t,)),
                self.compare == old(self).compare,
                ds.len() + self.list@.len() == orig.len(),
                forall|j: int|
                    0 <= j < self.list@.len() ==> views(self.list@)[j] == orig[ds.len() + j],
                forall|i: int|
                    0 <= i < ds.len() ==> keep_may_return(keep, orig[i], #[trigger] ds[i]),
                views(kept@) == filter_by_mask(orig.take(ds.len() as int), ds),
            decreases self.list@.len(),
        {
            let ghost pre = self.list@;
            let ghost n = ds.len() as int;
            let x = self.list.remove(0);
            proof {
                assert(self.list@ =~= pre.drop_first());
                assert(views(pre)[0] == orig[n]);
                assert(x@ == orig[n]);
            }
            let b = keep(x.elem_str());
            let ghost kept_pre = kept@;
            if b {
                kept.push(x);
            }
            proof {
                assert(keep_may_return(keep, orig[n], b));
                lemma_filter_by_mask_push(orig.take(n), ds, x@, b);
                assert(orig.take(n).push(x@) =~= orig.take(n + 1));
                ds = ds.push(b);
                if b {
                    assert(views(kept@) =~= views(kept_pre).push(x@));
                } else {
                    assert(views(kept@) == views(kept_pre));
                }
                assert(views(kept@) == filter_by_mask(orig.take(n + 1), ds));
                assert forall|j: int|
                    0 <= j < self.list@.len() implies views(self.list@)[j] == orig[ds.len()
                    + j] by {
                    assert(self.list@[j] == pre[j + 1]);
                    assert(views(pre)[j + 1] == orig[n + 1 + j]);
                }
            }
        }
        proof {
            assert(orig.take(ds.len() as int) =~= orig);
        }
        self.list = kept;
    }

    /// True if the element of `v` at `k - 1` compares greater than `x`
    /// under the active order.
    fn greater_at(&self, v: &Vec<S>, k: usize, x: &S) -> (b: bool)
        requires
            1 <= k <= v@.len(),
        ensures
            b == (self.active_cmp()(views(v@)[k - 1], x@) == Ordering::Greater),
    {
        let c = self.compare_strs(v[k - 1].elem_str(), x.elem_str());
        matches!(c, Ordering::Greater)
    }

    /// Stable-sorts the collection by the active order: the installed
    /// comparator's order, or the byte-lexicographic default if none is
    /// installed.  Elements that compare equal keep their relative order.
    pub fn sort(&mut self)
        ensures
            final(self)@ == stable_sort_by(old(self)@, old(self).active_cmp()),
            final(self).compare == old(self).compare,
    {
        let ghost orig = self@;
        let ghost cmp = self.active_cmp();
        let mut sorted_list: Vec<S> = Vec::new();
        while self.list.len() > 0
            invariant
                self.compare == old(self).compare,
                cmp == self.active_cmp(),
                self.list@.len() <= orig.len(),
                forall|j: int|
                    0 <= j < self.list@.len() ==> views(self.list@)[j] == orig[orig.len()
                        - self.list@.len() + j],
                views(sorted_list@) == stable_sort_by(
                    orig.take(orig.len() - self.list@.len()),
                    cmp,
                ),
            decreases self.list@.len(),
        {
            let ghost pre = self.list@;
            let ghost n = orig.len() - pre.len();
            let x = self.list.remove(0);
            proof {
                assert(self.list@ =~= pre.drop_first());
                assert(views(pre)[0] == orig[n]);
                assert(x@ == orig[n]);
            }
            let mut k = sorted_list.len();
            while k > 0 && self.greater_at(&sorted_list, k, &x)
                invariant
                    cmp == self.active_cmp(),
                    k <= sorted_list@.len(),
                    forall|j: int|
                        k <= j < sorted_list@.len() ==> cmp(
                            #[trigger] views(sorted_list@)[j],
                            x@,
                        ) == Ordering::Greater,
                decreases k,
            {
                k -= 1;
            }
            let ghost sorted_pre = sorted_list@;
            sorted_list.insert(k, x);
            proof {
                lemma_insert_ordered_at(views(sorted_pre), x@, cmp, k as int);
                assert(views(sorted_list@) =~= views(sorted_pre).insert(k as int, x@));
                lemma_stable_sort_by_step(orig, n, cmp);
                assert(views(sorted_list@) == stable_sort_by(orig.take(n + 1), cmp));
                assert forall|j: int|
                    0 <= j < self.list@.len() implies views(self.list@)[j] == orig[orig.len()
                    - self.list@.len() + j] by {
                    assert(self.list@[j] == pre[j + 1]);
                    assert(views(pre)[j + 1] == orig[n + 1 + j]);
                }
            }
        }
        proof {
            assert(orig.take(orig.len() - self.list@.len()) =~= orig);
        }
        self.list = sorted_list;
    }

    /// Linear scan for the first element that compares equal to `lookup`
    /// under the active order; the collection need not be sorted.
    pub fn unsorted_lookup(&self, lookup: &str) -> (r: Option<&S>)
        ensures
            match r {
                Some(e) => exists|i: int|
                    0 <= i < self@.len() && e@ == self@[i] && #[trigger] self.matches_at(lookup@, i)
                        && (forall|j: int| 0 <= j < i ==> !self.matches_at(lookup@, j)),
                None => forall|i: int| 0 <= i < self@.len() ==> !self.matches_at(lookup@, i),
            },
    {
        let mut i: usize = 0;
        while i < self.list.len()
            invariant
                i <= self.list@.len(),
                forall|j: int| 0 <= j < i ==> !self.matches_at(lookup@, j),
            decreases self.list@.len() - i,
        {
            let c = self.compare_strs(self.list[i].elem_str(), lookup);
            if matches!(c, Ordering::Equal) {
                proof {
                    assert(self.matches_at(lookup@, i as int));
                }
                return Some(&self.list[i]);
            }
            i += 1;
        }
        None
    }

    /// True if some element compares equal to `lookup` under the active
    /// order.
    pub fn unsorted_has_string(&self, lookup: &str) -> (r: bool)
        ensures
            r == exists|i: int| 0 <= i < self@.len() && #[trigger] self.matches_at(lookup@, i),
    {
        self.unsorted_lookup(lookup).is_some()
    }

    /// Removes the element at `index` by moving the last element into its
    /// place and shrinking the collection by one.  Constant-time; does not
    /// preserve order.
    pub fn unsorted_delete(&mut self, index: usize)
        requires
            index < old(self)@.len(),
        ensures
            final(self)@ == old(self)@.update(index as int, old(self)@.last()).drop_last(),
            final(self).compare == old(self).compare,
    {
        self.list.swap_remove(index);
        proof {
            assert(self@ =~= old(self)@.update(index as int, old(self)@.last()).drop_last());
        }
    }

    /// The elements' texts, in current order, as read-only references.
    pub fn iter(&self) -> (r: Vec<&str>)
        ensures
            r@.len() == self@.len(),
            forall|i: int| 0 <= i < r@.len() ==> #[trigger] r@[i]@ == self@[i],
    {
        let mut r: Vec<&str> = Vec::new();
        let mut i: usize = 0;
        while i < self.list.len()
            invariant
                i <= self.list@.len(),
                r@.len() == i,
                forall|j: int| 0 <= j < i ==> #[trigger] r@[j]@ == views(self.list@)[j],
            decreases self.list@.len() - i,
        {
            r.push(self.list[i].elem_str());
            i += 1;
        }
        r
    }
}

impl<'a, C: Comparator> StringListBase<&'a str, C> {
    /// Appends a reference to `str_in`; no text is copied.  The caller's
    /// text must outlive the collection, which the borrow checker enforces.
    pub fn append(&mut self, str_in: &'a str)
        ensures
            final(self)@ == old(self)@.push(str_in@),
            final(self).compare == old(self).compare,
    {
        self.list.push(str_in);
        proof {
            assert(self@ =~= old(self)@.push(str_in@));
        }
    }

    /// Splits `string` on `delim` and appends every piece as a reference
    /// into `string`, returning the number of pieces appended.  Once the
    /// piece about to be produced would exceed `max_split`, the whole
    /// remaining text — further delimiters included — becomes the final
    /// piece; a negative `max_split` means unlimited splits.  The source
    /// text is not modified: the pieces are views into sub-ranges of it.
    pub fn split_in_place(&mut self, string: &'a str, delim: char, max_split: i32) -> (count:
        usize)
        requires
            string@.len() < usize::MAX,
        ensures
            final(self)@ == old(self)@ + split_pieces(string@, delim, max_split as int, 0),
            count == split_pieces(string@, delim, max_split as int, 0).len(),
            final(self).compare == old(self).compare,
    {
        let ghost orig = self@;
        let ghost target = split_pieces(string@, delim, max_split as int, 0);
        let ghost mut produced: Seq<Seq<char>> = Seq::empty();
        let n = string.unicode_len();
        let mut pos: usize = 0;
        let mut count: usize = 0;
        proof {
            assert(string@.skip(0) =~= string@);
            assert(Seq::<Seq<char>>::empty() + target =~= target);
            assert(orig + Seq::<Seq<char>>::empty() =~= orig);
        }
        loop
            invariant
                n == string@.len(),
                string@.len() < usize::MAX,
                orig == old(self)@,
                target == split_pieces(string@, delim, max_split as int, 0),
                pos <= n,
                count <= pos,
                count == produced.len(),
                self.compare == old(self).compare,
                self@ == orig + produced,
                target == produced + split_pieces(
                    string@.skip(pos as int),
                    delim,
                    max_split as int,
                    count as int,
                ),
            decreases n - pos,
        {
            let ghost rem = string@.skip(pos as int);
            let ghost c0 = count as int;
            if max_split >= 0 && count + 1 > (max_split as usize) {
                let piece = string.substring_char(pos, n);
                let ghost lv = self.list@;
                self.list.push(piece);
                count += 1;
                proof {
                    assert(piece@ =~= rem);
                    assert(split_pieces(rem, delim, max_split as int, c0) == seq![rem]);
                    assert(views(self.list@) =~= views(lv).push(rem));
                    produced = produced.push(rem);
                    assert(self@ =~= orig + produced);
                    assert(target =~= produced);
                }
                return count;
            }
            let mut i = pos;
            while i < n && string.get_char(i) != delim
                invariant
                    n == string@.len(),
                    pos <= i <= n,
                    forall|j: int| pos <= j < i ==> string@[j] != delim,
                decreases n - i,
            {
                i += 1;
            }
            proof {
                assert forall|j: int| 0 <= j < i - pos implies rem[j] != delim by {
                    assert(rem[j] == string@[pos + j]);
                }
                if i < n {
                    assert(rem[i - pos] == string@[i as int]);
                }
                lemma_first_delim_is(rem, delim, i - pos as int);
            }
            if i < n {
                let piece = string.substring_char(pos, i);
                let ghost lv = self.list@;
                self.list.push(piece);
                count += 1;
                proof {
                    lemma_split_pieces_step(rem, delim, max_split as int, c0);
                    assert(piece@ =~= rem.take((i - pos) as int));
                    assert(views(self.list@) =~= views(lv).push(piece@));
                    produced = produced.push(piece@);
                    assert(self@ =~= orig + produced);
                    assert(rem.skip((i - pos) as int + 1) =~= string@.skip(i as int + 1));
                    assert(target =~= produced + split_pieces(
                        string@.skip(i as int + 1),
                        delim,
                        max_split as int,
                        count as int,
                    ));
                }
                pos = i + 1;
            } else {
                let piece = string.substring_char(pos, n);
                let ghost lv = self.list@;
                self.list.push(piece);
                count += 1;
                proof {
                    assert(piece@ =~= rem);
                    assert(split_pieces(rem, delim, max_split as int, c0) == seq![rem]);
                    assert(views(self.list@) =~= views(lv).push(rem));
                    produced = produced.push(rem);
                    assert(self@ =~= orig + produced);
                    assert(target =~= produced);
                }
                return count;
            }
        }
    }
}

impl<C: Comparator> StringListBase<String, C> {
    /// Appends an independent copy of `str_in`; the source may change or be
    /// dropped afterwards with no effect on the collection.
    pub fn append(&mut self, str_in: &str)
        ensures
            final(self)@ == old(self)@.push(str_in@),
            final(self).compare == old(self).compare,
    {
        self.list.push(str_in.to_owned());
        proof {
            assert(self@ =~= old(self)@.push(str_in@));
        }
    }

    /// Splits `string` on `delim` and appends every piece as an independent
    /// copy, returning the number of pieces appended.  Once the piece about
    /// to be produced would exceed `max_split`, the whole remaining text —
    /// further delimiters included — becomes the final piece; a negative
    /// `max_split` means unlimited splits.  The source is read-only and
    /// unaffected.
    pub fn split(&mut self, string: &str, delim: char, max_split: i32) -> (count: usize)
        requires
            string@.len() < usize::MAX,
        ensures
            final(self)@ == old(self)@ + split_pieces(string@, delim, max_split as int, 0),
            count == split_pieces(string@, delim, max_split as int, 0).len(),
            final(self).compare == old(self).compare,
    {
        let ghost orig = self@;
        let ghost target = split_pieces(string@, delim, max_split as int, 0);
        let ghost mut produced: Seq<Seq<char>> = Seq::empty();
        let n = string.unicode_len();
        let mut pos: usize = 0;
        let mut count: usize = 0;
        proof {
            assert(string@.skip(0) =~= string@);
            assert(Seq::<Seq<char>>::empty() + target =~= target);
            assert(orig + Seq::<Seq<char>>::empty() =~= orig);
        }
        loop
            invariant
                n == string@.len(),
                string@.len() < usize::MAX,
                orig == old(self)@,
                target == split_pieces(string@, delim, max_split as int, 0),
                pos <= n,
                count <= pos,
                count == produced.len(),
                self.compare == old(self).compare,
                self@ == orig + produced,
                target == produced + split_pieces(
                    string@.skip(pos as int),
                    delim,
                    max_split as int,
                    count as int,
                ),
            decreases n - pos,
        {
            let ghost rem = string@.skip(pos as int);
            let ghost c0 = count as int;
            if max_split >= 0 && count + 1 > (max_split as usize) {
                let piece = string.substring_char(pos, n);
                let ghost lv = self.list@;
                self.list.push(piece.to_owned());
                count += 1;
                proof {
                    assert(piece@ =~= rem);
                    assert(split_pieces(rem, delim, max_split as int, c0) == seq![rem]);
                    assert(views(self.list@) =~= views(lv).push(rem));
                    produced = produced.push(rem);
                    assert(self@ =~= orig + produced);
                    assert(target =~= produced);
                }
                return count;
            }
            let mut i = pos;
            while i < n && string.get_char(i) != delim
                invariant
                    n == string@.len(),
                    pos <= i <= n,
                    forall|j: int| pos <= j < i ==> string@[j] != delim,
                decreases n - i,
            {
                i += 1;
            }
            proof {
                assert forall|j: int| 0 <= j < i - pos implies rem[j] != delim by {
                    assert(rem[j] == string@[pos + j]);
                }
                if i < n {
                    assert(rem[i - pos] == string@[i as int]);
                }
                lemma_first_delim_is(rem, delim, i - pos as int);
            }
            if i < n {
                let piece = string.substring_char(pos, i);
                let ghost lv = self.list@;
                self.list.push(piece.to_owned());
                count += 1;
                proof {
                    lemma_split_pieces_step(rem, delim, max_split as int, c0);
                    assert(piece@ =~= rem.take((i - pos) as int));
                    assert(views(self.list@) =~= views(lv).push(piece@));
                    produced = produced.push(piece@);
                    assert(self@ =~= orig + produced);
                    assert(rem.skip((i - pos) as int + 1) =~= string@.skip(i as int + 1));
                    assert(target =~= produced + split_pieces(
                        string@.skip(i as int + 1),
                        delim,
                        max_split as int,
                        count as int,
                    ));
                }
                pos = i + 1;
            } else {
                let piece = string.substring_char(pos, n);
                let ghost lv = self.list@;
                self.list.push(piece.to_owned());
                count += 1;
                proof {
                    assert(piece@ =~= rem);
                    assert(split_pieces(rem, delim, max_split as int, c0) == seq![rem]);
                    assert(views(self.list@) =~= views(lv).push(rem));
                    produced = produced.push(rem);
                    assert(self@ =~= orig + produced);
                    assert(target =~= produced);
                }
                return count;
            }
        }
    }
}

/// The default ordering law: with no comparator installed, sorting orders
/// the collection byte-lexicographically, keeps every tie class in its
/// insertion order, and permutes the elements.  Together with the contract
/// of `sort`, this pins down what `sort` does to such a collection.
pub proof fn lemma_sort_default_comparator<S: StrElem, C: Comparator>(
    st: StringListBase<S, C>,
    key: Seq<char>,
)
    requires
        st.compare.is_none(),
    ensures
        sorted_by(stable_sort_by(st@, st.active_cmp()), cmp_le_fn(lex_cmp_fn())),
        stable_sort_by(st@, st.active_cmp()).filter(equals_key(lex_cmp_fn(), key)) == st@.filter(
            equals_key(lex_cmp_fn(), key),
        ),
        stable_sort_by(st@, st.active_cmp()).to_multiset() == st@.to_multiset(),
{
    assert(st.active_cmp() == lex_cmp_fn());
    lemma_default_sort(st@, key);
}

/// The comparator-override law for the reversed order: with the reversed
/// comparator installed, sorting orders the collection by that comparator —
/// not by the default — and still keeps every tie class in its insertion
/// order.
pub proof fn lemma_sort_reverse_comparator<S: StrElem>(
    st: StringListBase<S, ReverseLexicographic>,
    key: Seq<char>,
)
    requires
        st.compare.is_some(),
    ensures
        sorted_by(stable_sort_by(st@, st.active_cmp()), cmp_le_fn(st.active_cmp())),
        stable_sort_by(st@, st.active_cmp()).filter(equals_key(st.active_cmp(), key))
            == st@.filter(equals_key(st.active_cmp(), key)),
        stable_sort_by(st@, st.active_cmp()).to_multiset() == st@.to_multiset(),
{
    let cmp = st.active_cmp();
    assert(forall|a: Seq<char>, b: Seq<char>| #[trigger] cmp(a, b) == lex_cmp(b, a));
    lemma_rev_lex_laws_for(cmp);
    lemma_stable_sort_by_sorted(st@, cmp);
    lemma_stable_sort_by_ties(st@, cmp, key);
    lemma_stable_sort_by_multiset(st@, cmp);
}

} // verus!
