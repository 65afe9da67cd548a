//! Lexicographic ordering of image names.
//!
//! The image set keeps its elements sorted by the code-point order of their
//! characters; adjacency under that order decides which pairs of images get a
//! transition. This module defines the order, an executable comparison, and
//! the lemmas (trichotomy, transitivity) the sorted-set proofs rest on.
use vstd::prelude::*;
use vstd::string::StrSliceExecFns;

verus! {

/// Strict lexicographic order on character sequences by code point:
/// `a` comes before `b` when `a` is a proper prefix of `b`, or when the two
/// differ at some position and `a` holds the smaller character there.
pub open spec fn chars_lt(a: Seq<char>, b: Seq<char>) -> bool
    decreases a.len(),
{
    if b.len() == 0 {
        false
    } else if a.len() == 0 {
        true
    } else if a[0] < b[0] {
        true
    } else if b[0] < a[0] {
        false
    } else {
        chars_lt(a.skip(1), b.skip(1))
    }
}

/// No sequence is ordered before itself.
pub proof fn lemma_chars_lt_irreflexive(a: Seq<char>)
    ensures
        !chars_lt(a, a),
    decreases a.len(),
{
    if a.len() > 0 {
        lemma_chars_lt_irreflexive(a.skip(1));
    }
}

/// Two sequences are equal, or one is strictly before the other.
pub proof fn lemma_chars_lt_trichotomy(a: Seq<char>, b: Seq<char>)
    ensures
        chars_lt(a, b) || chars_lt(b, a) || a =~= b,
    decreases a.len(),
{
    if a.len() == 0 || b.len() == 0 {
        if a.len() == b.len() {
            assert(a =~= b);
        }
    } else if a[0] == b[0] {
        lemma_chars_lt_trichotomy(a.skip(1), b.skip(1));
        if a.skip(1) =~= b.skip(1) {
            assert forall|i: int| 0 <= i < a.len() implies a[i] == b[i] by {
                if i > 0 {
                    assert(a[i] == a.skip(1)[i - 1]);
                    assert(b[i] == b.skip(1)[i - 1]);
                }
            }
            assert(a =~= b);
        }
    }
}

/// The order is transitive.
pub proof fn lemma_chars_lt_transitive(a: Seq<char>, b: Seq<char>, c: Seq<char>)
    requires
        chars_lt(a, b),
        chars_lt(b, c),
    ensures
        chars_lt(a, c),
    decreases a.len(),
{
    if a.len() == 0 || b.len() == 0 || c.len() == 0 {
    } else if a[0] == b[0] && b[0] == c[0] {
        lemma_chars_lt_transitive(a.skip(1), b.skip(1), c.skip(1));
    }
}

/// At most one direction of the strict order holds, and ordered sequences
/// are never equal.
pub proof fn lemma_chars_lt_asymmetric(a: Seq<char>, b: Seq<char>)
    requires
        chars_lt(a, b),
    ensures
        !chars_lt(b, a),
        !(a =~= b),
{
    if chars_lt(b, a) {
        lemma_chars_lt_transitive(a, b, a);
        lemma_chars_lt_irreflexive(a);
    }
    if a =~= b {
        lemma_chars_lt_irreflexive(a);
    }
}

/// Comparing the suffixes after a common prefix decides the whole comparison.
proof fn lemma_chars_lt_common_prefix(a: Seq<char>, b: Seq<char>, i: int)
    requires
        0 <= i <= a.len(),
        0 <= i <= b.len(),
        forall|k: int| 0 <= k < i ==> a[k] == b[k],
    ensures
        chars_lt(a, b) == chars_lt(a.skip(i), b.skip(i)),
    decreases i,
{
    if i > 0 {
        assert(a[0] == b[0]);
        assert(chars_lt(a, b) == chars_lt(a.skip(1), b.skip(1)));
        assert(forall|k: int| 0 <= k < i - 1 ==> #[trigger] a.skip(1)[k] == b.skip(1)[k]);
        lemma_chars_lt_common_prefix(a.skip(1), b.skip(1), i - 1);
        assert(a.skip(1).skip(i - 1) =~= a.skip(i));
        assert(b.skip(1).skip(i - 1) =~= b.skip(i));
        assert(chars_lt(a.skip(1).skip(i - 1), b.skip(1).skip(i - 1)) == chars_lt(
            a.skip(i),
            b.skip(i),
        ));
    } else {
        assert(a.skip(0) =~= a);
        assert(b.skip(0) =~= b);
    }
}

/// Decides whether `a` comes strictly before `b` in the image-name order.
pub fn str_lt(a: &str, b: &str) -> (r: bool)
    ensures
        r == chars_lt(a@, b@),
{
    let a_len: usize = a.unicode_len();
    let b_len: usize = b.unicode_len();
    let mut i: usize = 0;
    loop
        invariant
            i <= a_len,
            i <= b_len,
            a_len == a@.len(),
            b_len == b@.len(),
            forall|k: int| 0 <= k < i ==> a@[k] == b@[k],
        decreases a_len - i,
    {
        if i == a_len {
            proof {
                lemma_chars_lt_common_prefix(a@, b@, i as int);
            }
            return i < b_len;
        }
        if i == b_len {
            proof {
                lemma_chars_lt_common_prefix(a@, b@, i as int);
            }
            return false;
        }
        let ca = a.get_char(i);
        let cb = b.get_char(i);
        if ca < cb {
            proof {
                lemma_chars_lt_common_prefix(a@, b@, i as int);
                assert(chars_lt(a@.skip(i as int), b@.skip(i as int)));
            }
            return true;
        }
        if cb < ca {
            proof {
                lemma_chars_lt_common_prefix(a@, b@, i as int);
                assert(!chars_lt(a@.skip(i as int), b@.skip(i as int)));
            }
            return false;
        }
        i = i + 1;
    }
}

/// A sequence of names is strictly sorted: each element comes before the next,
/// so the sequence also holds no duplicates.
pub open spec fn strictly_sorted(s: Seq<Seq<char>>) -> bool {
    forall|i: int, j: int| 0 <= i < j < s.len() ==> chars_lt(s[i], s[j])
}

} // verus!
