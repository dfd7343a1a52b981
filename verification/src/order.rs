//! Lexicographic order on byte strings, and prefix reasoning.
//!
//! The store keeps its entries sorted by this order; branches rely on the
//! prefix lemmas to show that sibling namespaces never collide.

use vstd::prelude::*;

verus! {

/// Strict lexicographic (byte-wise) order: `a` sorts before `b`.
pub open spec fn lex_lt(a: Seq<u8>, b: Seq<u8>) -> bool
    decreases a.len(),
{
    if b.len() == 0 {
        false
    } else if a.len() == 0 {
        true
    } else if a[0] < b[0] {
        true
    } else if a[0] > b[0] {
        false
    } else {
        lex_lt(a.skip(1), b.skip(1))
    }
}

/// `p` is a (not necessarily proper) prefix of `k`.
pub open spec fn is_prefix_of(p: Seq<u8>, k: Seq<u8>) -> bool {
    p.len() <= k.len() && k.take(p.len() as int) == p
}

pub proof fn lemma_lex_lt_irrefl(a: Seq<u8>)
    ensures
        !lex_lt(a, a),
    decreases a.len(),
{
    if a.len() > 0 {
        lemma_lex_lt_irrefl(a.skip(1));
    }
}

pub proof fn lemma_lex_lt_asym(a: Seq<u8>, b: Seq<u8>)
    ensures
        lex_lt(a, b) ==> !lex_lt(b, a),
    decreases a.len(),
{
    if a.len() > 0 && b.len() > 0 && a[0] == b[0] {
        lemma_lex_lt_asym(a.skip(1), b.skip(1));
    }
}

/// Any two distinct byte strings are ordered one way or the other.
pub proof fn lemma_lex_lt_total(a: Seq<u8>, b: Seq<u8>)
    ensures
        a != b ==> lex_lt(a, b) || lex_lt(b, a),
    decreases a.len(),
{
    if a.len() == 0 && b.len() == 0 {
        assert(a =~= b);
    }
    if a.len() > 0 && b.len() > 0 && a[0] == b[0] {
        lemma_lex_lt_total(a.skip(1), b.skip(1));
        assert(lex_lt(a, b) == lex_lt(a.skip(1), b.skip(1)));
        assert(lex_lt(b, a) == lex_lt(b.skip(1), a.skip(1)));
        if a.skip(1) == b.skip(1) {
            assert(a =~= b) by {
                assert forall|j: int| 0 <= j < a.len() implies #[trigger] a[j] == b[j] by {
                    if j > 0 {
                        assert(a.skip(1)[j - 1] == a[j]);
                        assert(b.skip(1)[j - 1] == b[j]);
                    }
                }
            }
        }
    }
}

pub proof fn lemma_lex_lt_trans(a: Seq<u8>, b: Seq<u8>, c: Seq<u8>)
    ensures
        lex_lt(a, b) && lex_lt(b, c) ==> lex_lt(a, c),
    decreases a.len(),
{
    if a.len() > 0 && b.len() > 0 && c.len() > 0 {
        lemma_lex_lt_trans(a.skip(1), b.skip(1), c.skip(1));
    }
}

/// Deciding `lex_lt` may start after any common prefix of the two strings.
pub proof fn lemma_lex_lt_common_prefix(a: Seq<u8>, b: Seq<u8>, i: int)
    requires
        0 <= i <= a.len(),
        i <= b.len(),
        a.take(i) == b.take(i),
    ensures
        lex_lt(a, b) == lex_lt(a.skip(i), b.skip(i)),
    decreases i,
{
    if i > 0 {
        assert(a.take(i)[0] == a[0]);
        assert(b.take(i)[0] == b[0]);
        assert(a.skip(1).take(i - 1) =~= b.skip(1).take(i - 1)) by {
            assert forall|j: int| 0 <= j < i - 1 implies #[trigger] a.skip(1)[j] == b.skip(1)[j] by {
                assert(a.take(i)[j + 1] == b.take(i)[j + 1]);
                assert(a.take(i)[j + 1] == a[j + 1]);
                assert(b.take(i)[j + 1] == b[j + 1]);
                assert(a.skip(1)[j] == a[j + 1]);
                assert(b.skip(1)[j] == b[j + 1]);
            }
        }
        lemma_lex_lt_common_prefix(a.skip(1), b.skip(1), i - 1);
        assert(a.skip(1).skip(i - 1) =~= a.skip(i));
        assert(b.skip(1).skip(i - 1) =~= b.skip(i));
        assert(a[0] == b[0]);
        assert(lex_lt(a, b) == lex_lt(a.skip(1), b.skip(1)));
    } else {
        assert(a.skip(0) =~= a);
        assert(b.skip(0) =~= b);
    }
}

/// Prepending one shared prefix to two strings does not change their order.
pub proof fn lemma_lex_lt_prepend(p: Seq<u8>, a: Seq<u8>, b: Seq<u8>)
    ensures
        lex_lt(p + a, p + b) == lex_lt(a, b),
{
    assert((p + a).take(p.len() as int) =~= p);
    assert((p + b).take(p.len() as int) =~= p);
    lemma_lex_lt_common_prefix(p + a, p + b, p.len() as int);
    assert((p + a).skip(p.len() as int) =~= a);
    assert((p + b).skip(p.len() as int) =~= b);
}

/// Distinct prefixes of one length never extend one another; sibling
/// containers rooted at such prefixes are automatically disjoint.
pub proof fn lemma_equal_length_prefixes(p1: Seq<u8>, p2: Seq<u8>)
    requires
        p1.len() == p2.len(),
        p1 != p2,
    ensures
        !is_prefix_of(p1, p2),
        !is_prefix_of(p2, p1),
{
    assert(p2.take(p1.len() as int) =~= p2);
    assert(p1.take(p2.len() as int) =~= p1);
}

/// Keys under prefixes that do not extend one another can never be equal,
/// whatever suffixes are appended: the two namespaces are disjoint.
pub proof fn lemma_disjoint_prefixes(p1: Seq<u8>, p2: Seq<u8>, s1: Seq<u8>, s2: Seq<u8>)
    requires
        !is_prefix_of(p1, p2),
        !is_prefix_of(p2, p1),
    ensures
        p1 + s1 != p2 + s2,
{
    let k1 = p1 + s1;
    let k2 = p2 + s2;
    if k1 == k2 {
        if p1.len() <= p2.len() {
            assert(p2.take(p1.len() as int) =~= p1) by {
                assert forall|j: int| 0 <= j < p1.len() implies p2.take(p1.len() as int)[j]
                    == p1[j] by {
                    assert(k1[j] == p1[j]);
                    assert(k2[j] == p2[j]);
                }
            }
        } else {
            assert(p1.take(p2.len() as int) =~= p2) by {
                assert forall|j: int| 0 <= j < p2.len() implies p1.take(p2.len() as int)[j]
                    == p2[j] by {
                    assert(k1[j] == p1[j]);
                    assert(k2[j] == p2[j]);
                }
            }
        }
    }
}

/// Compare two byte strings, true when `a` sorts strictly before `b`.
pub fn bytes_lt(a: &[u8], b: &[u8]) -> (r: bool)
    ensures
        r == lex_lt(a@, b@),
{
    let mut i: usize = 0;
    let a_len = a.len();
    let b_len = b.len();
    while i < a_len && i < b_len
        invariant
            0 <= i <= a_len,
            i <= b_len,
            a_len == a@.len(),
            b_len == b@.len(),
            a@.take(i as int) == b@.take(i as int),
        decreases a_len - i,
    {
        let x = *vstd::slice::slice_index_get(a, i);
        let y = *vstd::slice::slice_index_get(b, i);
        proof {
            lemma_lex_lt_common_prefix(a@, b@, i as int);
        }
        if x < y {
            return true;
        }
        if x > y {
            return false;
        }
        proof {
            assert(a@.take(i + 1) =~= a@.take(i as int).push(x));
            assert(b@.take(i + 1) =~= b@.take(i as int).push(y));
        }
        i = i + 1;
    }
    proof {
        lemma_lex_lt_common_prefix(a@, b@, i as int);
        if a_len <= b_len {
            assert(a@.skip(i as int) =~= Seq::<u8>::empty());
        } else {
            assert(b@.skip(i as int) =~= Seq::<u8>::empty());
        }
    }
    a_len < b_len
}

/// True exactly when the two byte strings are equal.
pub fn bytes_eq(a: &[u8], b: &[u8]) -> (r: bool)
    ensures
        r == (a@ == b@),
{
    if a.len() != b.len() {
        return false;
    }
    let mut i: usize = 0;
    let n = a.len();
    while i < n
        invariant
            0 <= i <= n,
            n == a@.len(),
            n == b@.len(),
            forall|j: int| 0 <= j < i ==> a@[j] == b@[j],
        decreases n - i,
    {
        if *vstd::slice::slice_index_get(a, i) != *vstd::slice::slice_index_get(b, i) {
            return false;
        }
        i = i + 1;
    }
    proof {
        assert(a@ =~= b@);
    }
    true
}

/// Copy a byte slice into an owned vector.
pub fn copy_bytes(a: &[u8]) -> (r: Vec<u8>)
    ensures
        r@ == a@,
{
    vstd::slice::slice_to_vec(a)
}

/// Concatenate two byte slices into an owned vector.
pub fn concat_bytes(a: &[u8], b: &[u8]) -> (r: Vec<u8>)
    ensures
        r@ == a@ + b@,
{
    let mut r = vstd::slice::slice_to_vec(a);
    let mut i: usize = 0;
    let n = b.len();
    while i < n
        invariant
            0 <= i <= n,
            n == b@.len(),
            r@ == a@ + b@.take(i as int),
        decreases n - i,
    {
        let x = *vstd::slice::slice_index_get(b, i);
        r.push(x);
        proof {
            assert(a@ + b@.take(i + 1) =~= (a@ + b@.take(i as int)).push(x));
        }
        i = i + 1;
    }
    proof {
        assert(b@.take(n as int) =~= b@);
    }
    r
}

/// True exactly when `p` is a prefix of `k`.
pub fn bytes_starts_with(k: &[u8], p: &[u8]) -> (r: bool)
    ensures
        r == is_prefix_of(p@, k@),
{
    if k.len() < p.len() {
        return false;
    }
    bytes_eq(vstd::slice::slice_subrange(k, 0, p.len()), p)
}

/// A string splits into any of its prefixes and the remaining suffix.
pub proof fn lemma_prefix_split(p: Seq<u8>, k: Seq<u8>)
    requires
        is_prefix_of(p, k),
    ensures
        p + k.skip(p.len() as int) == k,
{
    assert(p + k.skip(p.len() as int) =~= k);
}

/// Appending a suffix keeps the prefix a prefix, and stripping it back off
/// returns the suffix.
pub proof fn lemma_concat_parts(p: Seq<u8>, s: Seq<u8>)
    ensures
        is_prefix_of(p, p + s),
        (p + s).skip(p.len() as int) == s,
{
    assert((p + s).take(p.len() as int) =~= p);
    assert((p + s).skip(p.len() as int) =~= s);
}

} // verus!
