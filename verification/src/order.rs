//! Byte-wise lexicographic order on strings.
//!
//! Every index in the database is sorted by the UTF-8 byte value of the
//! referenced string.  This module defines that order on `Seq<u8>`, the
//! executable comparison that realizes it, and the lemmas (totality,
//! antisymmetry, transitivity, prefix runs being contiguous) that the index
//! construction and the binary searches rely on.

use vstd::prelude::*;

verus! {

/// `a` is less than or equal to `b` in byte-wise lexicographic order.
pub open spec fn lex_le(a: Seq<u8>, b: Seq<u8>) -> bool
    decreases a.len(),
{
    if a.len() == 0 {
        true
    } else if b.len() == 0 {
        false
    } else if a[0] < b[0] {
        true
    } else if a[0] > b[0] {
        false
    } else {
        lex_le(a.skip(1), b.skip(1))
    }
}

/// `p` is a prefix of `s`.
pub open spec fn is_prefix(p: Seq<u8>, s: Seq<u8>) -> bool {
    p.len() <= s.len() && s.subrange(0, p.len() as int) == p
}

/// The order is total.
pub proof fn lemma_lex_le_total(a: Seq<u8>, b: Seq<u8>)
    ensures
        lex_le(a, b) || lex_le(b, a),
    decreases a.len(),
{
    if a.len() > 0 && b.len() > 0 && a[0] == b[0] {
        lemma_lex_le_total(a.skip(1), b.skip(1));
    }
}

/// The order is antisymmetric: mutual `lex_le` means equality.
pub proof fn lemma_lex_le_antisymm(a: Seq<u8>, b: Seq<u8>)
    requires
        lex_le(a, b),
        lex_le(b, a),
    ensures
        a == b,
    decreases a.len(),
{
    if a.len() == 0 {
        assert(b.len() == 0);
        assert(a =~= b);
    } else {
        assert(b.len() > 0);
        assert(a[0] == b[0]);
        lemma_lex_le_antisymm(a.skip(1), b.skip(1));
        assert(a =~= b) by {
            assert(forall|i: int|
                1 <= i < a.len() ==> a[i] == a.skip(1)[i - 1] && b[i] == b.skip(1)[i - 1]);
        }
    }
}

/// The order is transitive.
pub proof fn lemma_lex_le_trans(a: Seq<u8>, b: Seq<u8>, c: Seq<u8>)
    requires
        lex_le(a, b),
        lex_le(b, c),
    ensures
        lex_le(a, c),
    decreases a.len(),
{
    if a.len() > 0 {
        assert(b.len() > 0);
        assert(c.len() > 0);
        if a[0] == b[0] && b[0] == c[0] {
            lemma_lex_le_trans(a.skip(1), b.skip(1), c.skip(1));
        }
    }
}

/// A prefix is never above the string it starts.
pub proof fn lemma_prefix_lex_le(p: Seq<u8>, s: Seq<u8>)
    requires
        is_prefix(p, s),
    ensures
        lex_le(p, s),
    decreases p.len(),
{
    if p.len() > 0 {
        assert(p[0] == s.subrange(0, p.len() as int)[0]);
        assert(p.skip(1).len() == p.len() - 1);
        assert(s.skip(1).subrange(0, p.len() - 1) =~= p.skip(1)) by {
            assert(forall|i: int|
                0 <= i < p.len() - 1 ==> s.skip(1)[i] == s[i + 1] && p.skip(1)[i] == p[i + 1]
                    && s[i + 1] == s.subrange(0, p.len() as int)[i + 1]);
        }
        lemma_prefix_lex_le(p.skip(1), s.skip(1));
    }
}

/// Strings that share the prefix `k` form a contiguous run: anything ordered
/// between two of them also starts with `k`.
pub proof fn lemma_prefix_between(k: Seq<u8>, a: Seq<u8>, b: Seq<u8>, c: Seq<u8>)
    requires
        is_prefix(k, a),
        is_prefix(k, c),
        lex_le(a, b),
        lex_le(b, c),
    ensures
        is_prefix(k, b),
    decreases k.len(),
{
    if k.len() == 0 {
        assert(b.subrange(0, 0) =~= k);
    } else {
        assert(a[0] == k[0] && c[0] == k[0]) by {
            assert(a.subrange(0, k.len() as int)[0] == a[0]);
            assert(c.subrange(0, k.len() as int)[0] == c[0]);
        }
        assert(b.len() > 0);
        assert(a[0] <= b[0] && b[0] <= c[0]);
        assert(b[0] == k[0]);
        assert(is_prefix(k.skip(1), a.skip(1))) by {
            assert(a.skip(1).subrange(0, k.len() - 1) =~= k.skip(1)) by {
                assert(forall|i: int|
                    0 <= i < k.len() - 1 ==> a.skip(1)[i] == a[i + 1] && a[i + 1] == a.subrange(
                        0,
                        k.len() as int,
                    )[i + 1]);
            }
        }
        assert(is_prefix(k.skip(1), c.skip(1))) by {
            assert(c.skip(1).subrange(0, k.len() - 1) =~= k.skip(1)) by {
                assert(forall|i: int|
                    0 <= i < k.len() - 1 ==> c.skip(1)[i] == c[i + 1] && c[i + 1] == c.subrange(
                        0,
                        k.len() as int,
                    )[i + 1]);
            }
        }
        lemma_prefix_between(k.skip(1), a.skip(1), b.skip(1), c.skip(1));
        assert(b.subrange(0, k.len() as int) =~= k) by {
            assert(b.skip(1).subrange(0, k.len() - 1) =~= k.skip(1));
            assert(forall|i: int|
                1 <= i < k.len() ==> b.subrange(0, k.len() as int)[i] == b.skip(1)[i - 1]
                    && k[i] == k.skip(1)[i - 1]);
        }
    }
}

/// Restricting the order to a shared prefix: two strings that agree on their
/// first `i` bytes compare as their tails do.
pub proof fn lemma_lex_le_skip(a: Seq<u8>, b: Seq<u8>, i: int)
    requires
        0 <= i <= a.len(),
        i <= b.len(),
        a.subrange(0, i) == b.subrange(0, i),
    ensures
        lex_le(a, b) == lex_le(a.skip(i), b.skip(i)),
    decreases i,
{
    if i == 0 {
        assert(a.skip(0) =~= a);
        assert(b.skip(0) =~= b);
    } else {
        assert(a[0] == b[0]) by {
            assert(a.subrange(0, i)[0] == a[0] && b.subrange(0, i)[0] == b[0]);
        }
        assert(a.len() > 0 && b.len() > 0);
        assert(a.skip(1).subrange(0, i - 1) =~= b.skip(1).subrange(0, i - 1)) by {
            assert(forall|j: int|
                0 <= j < i - 1 ==> a.skip(1)[j] == a[j + 1] && b.skip(1)[j] == b[j + 1] && a[j + 1]
                    == a.subrange(0, i)[j + 1] && b[j + 1] == b.subrange(0, i)[j + 1]);
        }
        lemma_lex_le_skip(a.skip(1), b.skip(1), i - 1);
        assert(a.skip(1).skip(i - 1) =~= a.skip(i));
        assert(b.skip(1).skip(i - 1) =~= b.skip(i));
    }
}

/// Three-way byte comparison: `-1` when `a` is below `b`, `0` when equal,
/// `1` when above.
pub fn bytes_cmp(a: &Vec<u8>, b: &Vec<u8>) -> (r: i8)
    ensures
        -1 <= r <= 1,
        (r == 0) <==> (a@ == b@),
        (r <= 0) <==> lex_le(a@, b@),
        (r >= 0) <==> lex_le(b@, a@),
{
    let a_len = a.len();
    let b_len = b.len();
    let min: usize = if a_len < b_len {
        a_len
    } else {
        b_len
    };
    let mut i: usize = 0;
    while i < min
        invariant
            min <= a@.len(),
            min <= b@.len(),
            min == if a@.len() < b@.len() {
                a@.len()
            } else {
                b@.len()
            },
            0 <= i <= min,
            a@.subrange(0, i as int) =~= b@.subrange(0, i as int),
        decreases min - i,
    {
        let x = a[i];
        let y = b[i];
        if x < y {
            proof {
                lemma_lex_le_skip(a@, b@, i as int);
                assert(lex_le(a@.skip(i as int), b@.skip(i as int)));
                assert(a@[i as int] != b@[i as int]);
                lemma_lex_le_total(a@, b@);
                if lex_le(b@, a@) {
                    lemma_lex_le_antisymm(a@, b@);
                }
            }
            return -1;
        }
        if x > y {
            proof {
                lemma_lex_le_skip(b@, a@, i as int);
                assert(lex_le(b@.skip(i as int), a@.skip(i as int)));
                assert(a@[i as int] != b@[i as int]);
                if lex_le(a@, b@) {
                    lemma_lex_le_antisymm(a@, b@);
                }
            }
            return 1;
        }
        proof {
            assert(a@.subrange(0, i + 1) =~= b@.subrange(0, i + 1));
        }
        i = i + 1;
    }
    if a_len == b_len {
        proof {
            assert(a@.subrange(0, min as int) =~= a@);
            assert(b@.subrange(0, min as int) =~= b@);
            lemma_lex_le_skip(a@, b@, min as int);
            assert(a@.skip(min as int) =~= Seq::<u8>::empty());
        }
        0
    } else if a_len < b_len {
        proof {
            lemma_lex_le_skip(a@, b@, min as int);
            assert(a@.skip(min as int) =~= Seq::<u8>::empty());
            assert(a@.len() != b@.len());
            lemma_lex_le_skip(b@, a@, min as int);
            assert(b@.skip(min as int).len() > 0);
        }
        -1
    } else {
        proof {
            lemma_lex_le_skip(b@, a@, min as int);
            assert(b@.skip(min as int) =~= Seq::<u8>::empty());
            assert(a@.len() != b@.len());
            lemma_lex_le_skip(a@, b@, min as int);
            assert(a@.skip(min as int).len() > 0);
        }
        1
    }
}

/// Whether `s` starts with `p`.
pub fn bytes_starts_with(s: &Vec<u8>, p: &Vec<u8>) -> (r: bool)
    ensures
        r == is_prefix(p@, s@),
{
    let p_len = p.len();
    if p_len > s.len() {
        return false;
    }
    let mut i: usize = 0;
    while i < p_len
        invariant
            p_len == p@.len(),
            p@.len() <= s@.len(),
            0 <= i <= p_len,
            forall|j: int| 0 <= j < i ==> s@[j] == p@[j],
        decreases p_len - i,
    {
        if s[i] != p[i] {
            proof {
                assert(s@.subrange(0, p@.len() as int)[i as int] == s@[i as int]);
            }
            return false;
        }
        i = i + 1;
    }
    proof {
        assert(s@.subrange(0, p@.len() as int) =~= p@);
    }
    true
}

/// Whether `a` and `b` hold the same bytes.
pub fn bytes_eq(a: &Vec<u8>, b: &Vec<u8>) -> (r: bool)
    ensures
        r == (a@ == b@),
{
    if a.len() != b.len() {
        return false;
    }
    let mut i: usize = 0;
    while i < a.len()
        invariant
            a@.len() == b@.len(),
            0 <= i <= a@.len(),
            forall|j: int| 0 <= j < i ==> a@[j] == b@[j],
        decreases a@.len() - i,
    {
        if a[i] != b[i] {
            return false;
        }
        i = i + 1;
    }
    proof {
        assert(a@ =~= b@);
    }
    true
}

} // verus!
