//! Text comparators: the default byte-lexicographic order, a reversed
//! variant, and the trait through which a collection consumes a custom
//! comparator for both sorting and lookup.

use vstd::prelude::*;

verus! {

use core::cmp::Ordering;

/// Lexicographic comparison of two character sequences by code point.
/// Since UTF-8 preserves code-point order byte-wise, this coincides with
/// byte-wise lexicographic comparison of the encoded strings.
pub open spec fn lex_cmp(a: Seq<char>, b: Seq<char>) -> Ordering
    decreases a.len(),
{
    if a.len() == 0 && b.len() == 0 {
        Ordering::Equal
    } else if a.len() == 0 {
        Ordering::Less
    } else if b.len() == 0 {
        Ordering::Greater
    } else if (a[0] as u32) < (b[0] as u32) {
        Ordering::Less
    } else if (a[0] as u32) > (b[0] as u32) {
        Ordering::Greater
    } else {
        lex_cmp(a.drop_first(), b.drop_first())
    }
}

/// The default order as a function value, for use in contracts.
pub open spec fn lex_cmp_fn() -> spec_fn(Seq<char>, Seq<char>) -> Ordering {
    |a: Seq<char>, b: Seq<char>| lex_cmp(a, b)
}

/// The reversed default order as a function value.
pub open spec fn rev_lex_cmp_fn() -> spec_fn(Seq<char>, Seq<char>) -> Ordering {
    |a: Seq<char>, b: Seq<char>| lex_cmp(b, a)
}

/// Two characters with the same code point are the same character.
proof fn lemma_char_cast_injective(x: char, y: char)
    requires
        x as u32 == y as u32,
    ensures
        x == y,
{
}

/// A comparison of sequences that agree on their first `i` characters is
/// decided entirely by the remainders.
proof fn lemma_lex_cmp_common_prefix(a: Seq<char>, b: Seq<char>, i: int)
    requires
        0 <= i <= a.len(),
        i <= b.len(),
        forall|j: int| 0 <= j < i ==> a[j] == b[j],
    ensures
        lex_cmp(a, b) == lex_cmp(a.skip(i), b.skip(i)),
    decreases i,
{
    if i == 0 {
        assert(a.skip(0) =~= a);
        assert(b.skip(0) =~= b);
    } else {
        assert(a[0] == b[0]);
        lemma_lex_cmp_common_prefix(a.drop_first(), b.drop_first(), i - 1);
        assert(a.drop_first().skip(i - 1) =~= a.skip(i));
        assert(b.drop_first().skip(i - 1) =~= b.skip(i));
    }
}

/// Compares two strings in the default byte-lexicographic order.
pub fn lex_compare(a: &str, b: &str) -> (r: Ordering)
    ensures
        r == lex_cmp(a@, b@),
{
    let a_len = a.unicode_len();
    let b_len = b.unicode_len();
    let mut i: usize = 0;
    while i < a_len && i < b_len
        invariant
            a_len == a@.len(),
            b_len == b@.len(),
            i <= a_len,
            i <= b_len,
            forall|j: int| 0 <= j < i ==> a@[j] == b@[j],
        decreases a_len - i,
    {
        let ca = a.get_char(i);
        let cb = b.get_char(i);
        if (ca as u32) < (cb as u32) {
            proof {
                lemma_lex_cmp_common_prefix(a@, b@, i as int);
            }
            return Ordering::Less;
        }
        if (ca as u32) > (cb as u32) {
            proof {
                lemma_lex_cmp_common_prefix(a@, b@, i as int);
            }
            return Ordering::Greater;
        }
        i += 1;
    }
    proof {
        lemma_lex_cmp_common_prefix(a@, b@, i as int);
    }
    if a_len < b_len {
        Ordering::Less
    } else if a_len > b_len {
        Ordering::Greater
    } else {
        Ordering::Equal
    }
}

/// A custom ordering rule for a collection.  Installing a value of an
/// implementing type replaces the default lexicographic rule for both
/// sorting and lookup equality.
pub trait Comparator: Sized {
    /// The order this comparator decides, as a mathematical function.
    spec fn cmp_spec(&self, a: Seq<char>, b: Seq<char>) -> Ordering;

    /// Compares two pieces of text according to `cmp_spec`.
    fn compare(&self, a: &str, b: &str) -> (r: Ordering)
        ensures
            r == self.cmp_spec(a@, b@);
}

/// A comparator's order as a function value, for use in contracts.
pub open spec fn cmp_spec_fn<C: Comparator>(c: C) -> spec_fn(Seq<char>, Seq<char>) -> Ordering {
    |a: Seq<char>, b: Seq<char>| c.cmp_spec(a, b)
}

/// The default order: byte-lexicographic comparison.
pub struct Lexicographic;

impl Comparator for Lexicographic {
    open spec fn cmp_spec(&self, a: Seq<char>, b: Seq<char>) -> Ordering {
        lex_cmp(a, b)
    }

    fn compare(&self, a: &str, b: &str) -> (r: Ordering) {
        lex_compare(a, b)
    }
}

/// The reverse of the default order.
pub struct ReverseLexicographic;

impl Comparator for ReverseLexicographic {
    open spec fn cmp_spec(&self, a: Seq<char>, b: Seq<char>) -> Ordering {
        lex_cmp(b, a)
    }

    fn compare(&self, a: &str, b: &str) -> (r: Ordering) {
        lex_compare(b, a)
    }
}

/// The lexicographic order declares two sequences equal exactly when they
/// are the same sequence.
pub proof fn lemma_lex_cmp_equal_iff(a: Seq<char>, b: Seq<char>)
    ensures
        lex_cmp(a, b) == Ordering::Equal <==> a == b,
    decreases a.len(),
{
    if a.len() == 0 && b.len() == 0 {
        assert(a =~= b);
    } else if a.len() == 0 || b.len() == 0 {
    } else if (a[0] as u32) == (b[0] as u32) {
        lemma_char_cast_injective(a[0], b[0]);
        lemma_lex_cmp_equal_iff(a.drop_first(), b.drop_first());
        if lex_cmp(a, b) == Ordering::Equal {
            assert forall|i: int| 0 <= i < a.len() implies a[i] == b[i] by {
                if i > 0 {
                    assert(a.drop_first()[i - 1] == b.drop_first()[i - 1]);
                }
            }
            assert(a =~= b);
        }
        if a == b {
            assert(a.drop_first() =~= b.drop_first());
        }
    } else {
        assert(a[0] != b[0]);
    }
}

/// Swapping the arguments of the lexicographic order reverses its verdict.
pub proof fn lemma_lex_cmp_flip(a: Seq<char>, b: Seq<char>)
    ensures
        lex_cmp(a, b) == Ordering::Less <==> lex_cmp(b, a) == Ordering::Greater,
        lex_cmp(a, b) == Ordering::Equal <==> lex_cmp(b, a) == Ordering::Equal,
    decreases a.len(),
{
    if a.len() != 0 && b.len() != 0 && (a[0] as u32) == (b[0] as u32) {
        lemma_char_cast_injective(a[0], b[0]);
        lemma_lex_cmp_flip(a.drop_first(), b.drop_first());
    }
}

/// The lexicographic order is transitive in its non-strict form.
pub proof fn lemma_lex_cmp_trans(a: Seq<char>, b: Seq<char>, c: Seq<char>)
    requires
        lex_cmp(a, b) != Ordering::Greater,
        lex_cmp(b, c) != Ordering::Greater,
    ensures
        lex_cmp(a, c) != Ordering::Greater,
    decreases a.len(),
{
    if a.len() == 0 {
    } else {
        assert(b.len() != 0);
        assert(c.len() != 0);
        assert((a[0] as u32) <= (b[0] as u32));
        assert((b[0] as u32) <= (c[0] as u32));
        if (a[0] as u32) == (b[0] as u32) && (b[0] as u32) == (c[0] as u32) {
            lemma_char_cast_injective(a[0], b[0]);
            lemma_char_cast_injective(b[0], c[0]);
            lemma_lex_cmp_trans(a.drop_first(), b.drop_first(), c.drop_first());
        }
    }
}

} // verus!
