//! Code point extraction from UTF-8 bytes.
//!
//! The character index buckets terms by the code points appearing in their
//! keys.  [`cps`] defines the decoding structurally: a lead byte followed by
//! the continuation bytes its shape calls for yields the code point carried
//! by the payload bits, and any other byte yields the replacement character
//! and is consumed alone, so the decoding is total on arbitrary bytes.  On
//! well-formed UTF-8 this is exactly the text's code points.  The payload
//! bits are taken as they stand: overlong forms, surrogate values and
//! values beyond the last code point are not rejected, so on such malformed
//! input the decoding differs from std's lossy decoding, which replaces
//! them.

use vstd::prelude::*;

verus! {

/// The replacement code point emitted for bytes outside well-formed
/// sequences.
pub open spec fn replacement() -> u32 {
    0xFFFD
}

/// Whether `b` is a UTF-8 continuation byte.
pub open spec fn is_cont(b: u8) -> bool {
    0x80 <= b < 0xC0
}

/// The code points of `s`, decoded front to back.
pub open spec fn cps(s: Seq<u8>) -> Seq<u32>
    decreases s.len(),
{
    if s.len() == 0 {
        Seq::empty()
    } else {
        let b0 = s[0];
        if b0 < 0x80 {
            seq![b0 as u32] + cps(s.skip(1))
        } else if b0 < 0xC0 {
            seq![replacement()] + cps(s.skip(1))
        } else if b0 < 0xE0 {
            if s.len() >= 2 && is_cont(s[1]) {
                seq![((b0 - 0xC0) * 0x40 + (s[1] - 0x80)) as u32] + cps(s.skip(2))
            } else {
                seq![replacement()] + cps(s.skip(1))
            }
        } else if b0 < 0xF0 {
            if s.len() >= 3 && is_cont(s[1]) && is_cont(s[2]) {
                seq![((b0 - 0xE0) * 0x1000 + (s[1] - 0x80) * 0x40 + (s[2] - 0x80)) as u32] + cps(
                    s.skip(3),
                )
            } else {
                seq![replacement()] + cps(s.skip(1))
            }
        } else if b0 < 0xF8 {
            if s.len() >= 4 && is_cont(s[1]) && is_cont(s[2]) && is_cont(s[3]) {
                seq![((b0 - 0xF0) * 0x40000 + (s[1] - 0x80) * 0x1000 + (s[2] - 0x80) * 0x40 + (s[3]
                    - 0x80)) as u32] + cps(s.skip(4))
            } else {
                seq![replacement()] + cps(s.skip(1))
            }
        } else {
            seq![replacement()] + cps(s.skip(1))
        }
    }
}

/// A byte stream never decodes to more code points than bytes.
pub proof fn lemma_cps_len_le(s: Seq<u8>)
    ensures
        cps(s).len() <= s.len(),
    decreases s.len(),
{
    if s.len() > 0 {
        lemma_cps_len_le(s.skip(1));
        if s.len() >= 2 {
            lemma_cps_len_le(s.skip(2));
        }
        if s.len() >= 3 {
            lemma_cps_len_le(s.skip(3));
        }
        if s.len() >= 4 {
            lemma_cps_len_le(s.skip(4));
        }
    }
}

/// Every decoded code point fits well below the 32-bit handle space: four
/// payload-carrying bytes hold at most 22 bits.
pub proof fn lemma_cps_bounded(s: Seq<u8>)
    ensures
        forall|j: int| 0 <= j < cps(s).len() ==> #[trigger] cps(s)[j] < 0x400000,
    decreases s.len(),
{
    if s.len() > 0 {
        lemma_cps_bounded(s.skip(1));
        if s.len() >= 2 {
            lemma_cps_bounded(s.skip(2));
        }
        if s.len() >= 3 {
            lemma_cps_bounded(s.skip(3));
        }
        if s.len() >= 4 {
            lemma_cps_bounded(s.skip(4));
        }
        let b0 = s[0];
        assert forall|j: int| 0 <= j < cps(s).len() implies #[trigger] cps(s)[j] < 0x400000 by {
            if b0 < 0x80 {
                if j > 0 {
                    assert(cps(s)[j] == cps(s.skip(1))[j - 1]);
                }
            } else if b0 < 0xC0 {
                if j > 0 {
                    assert(cps(s)[j] == cps(s.skip(1))[j - 1]);
                }
            } else if b0 < 0xE0 {
                if s.len() >= 2 && is_cont(s[1]) {
                    if j > 0 {
                        assert(cps(s)[j] == cps(s.skip(2))[j - 1]);
                    }
                } else {
                    if j > 0 {
                        assert(cps(s)[j] == cps(s.skip(1))[j - 1]);
                    }
                }
            } else if b0 < 0xF0 {
                if s.len() >= 3 && is_cont(s[1]) && is_cont(s[2]) {
                    if j > 0 {
                        assert(cps(s)[j] == cps(s.skip(3))[j - 1]);
                    }
                } else {
                    if j > 0 {
                        assert(cps(s)[j] == cps(s.skip(1))[j - 1]);
                    }
                }
            } else if b0 < 0xF8 {
                if s.len() >= 4 && is_cont(s[1]) && is_cont(s[2]) && is_cont(s[3]) {
                    if j == 0 {
                        assert(cps(s)[0] == ((b0 - 0xF0) * 0x40000 + (s[1] - 0x80) * 0x1000 + (
                        s[2] - 0x80) * 0x40 + (s[3] - 0x80)) as u32);
                    } else {
                        assert(cps(s)[j] == cps(s.skip(4))[j - 1]);
                    }
                } else {
                    if j > 0 {
                        assert(cps(s)[j] == cps(s.skip(1))[j - 1]);
                    }
                }
            } else {
                if j > 0 {
                    assert(cps(s)[j] == cps(s.skip(1))[j - 1]);
                }
            }
        }
    }
}

/// Decodes the code points of `s`.
#[verifier::loop_isolation(false)]
pub fn code_points(s: &Vec<u8>) -> (r: Vec<u32>)
    ensures
        r@ == cps(s@),
{
    let len = s.len();
    let mut out: Vec<u32> = Vec::new();
    let mut i: usize = 0;
    proof {
        assert(s@.skip(0) =~= s@);
        assert(Seq::<u32>::empty() + cps(s@) =~= cps(s@));
    }
    while i < len
        invariant
            0 <= i <= len,
            cps(s@) == out@ + cps(s@.skip(i as int)),
        decreases len - i,
    {
        let ghost rest = s@.skip(i as int);
        proof {
            assert(rest.len() == len - i);
            assert(rest[0] == s@[i as int]);
            if rest.len() >= 2 {
                assert(rest[1] == s@[i + 1]);
            }
            if rest.len() >= 3 {
                assert(rest[2] == s@[i + 2]);
            }
            if rest.len() >= 4 {
                assert(rest[3] == s@[i + 3]);
            }
        }
        let b0 = s[i];
        let mut consumed: usize = 1;
        let mut cp: u32 = 0xFFFD;
        if b0 < 0x80 {
            cp = b0 as u32;
        } else if b0 < 0xC0 {
            cp = 0xFFFD;
        } else if b0 < 0xE0 {
            if len - i >= 2 && s[i + 1] >= 0x80 && s[i + 1] < 0xC0 {
                cp = (b0 - 0xC0) as u32 * 0x40 + (s[i + 1] - 0x80) as u32;
                consumed = 2;
            }
        } else if b0 < 0xF0 {
            if len - i >= 3 && s[i + 1] >= 0x80 && s[i + 1] < 0xC0 && s[i + 2] >= 0x80 && s[i + 2]
                < 0xC0 {
                cp = (b0 - 0xE0) as u32 * 0x1000 + (s[i + 1] - 0x80) as u32 * 0x40 + (s[i + 2]
                    - 0x80) as u32;
                consumed = 3;
            }
        } else if b0 < 0xF8 {
            if len - i >= 4 && s[i + 1] >= 0x80 && s[i + 1] < 0xC0 && s[i + 2] >= 0x80 && s[i + 2]
                < 0xC0 && s[i + 3] >= 0x80 && s[i + 3] < 0xC0 {
                cp = (b0 - 0xF0) as u32 * 0x40000 + (s[i + 1] - 0x80) as u32 * 0x1000 + (s[i + 2]
                    - 0x80) as u32 * 0x40 + (s[i + 3] - 0x80) as u32;
                consumed = 4;
            }
        }
        proof {
            assert(rest.skip(consumed as int) =~= s@.skip(i + consumed));
            assert(cps(rest) == seq![cp] + cps(s@.skip(i + consumed)));
            assert(out@ + seq![cp] + cps(s@.skip(i + consumed)) =~= out@ + (seq![cp] + cps(
                s@.skip(i + consumed),
            )));
        }
        out.push(cp);
        i = i + consumed;
    }
    proof {
        assert(s@.skip(len as int) =~= Seq::<u8>::empty());
        assert(out@ =~= cps(s@));
    }
    out
}

/// Appending one element to a sequence inserts it into the element set.
proof fn lemma_concat_single_to_set(s: Seq<u32>, x: u32)
    ensures
        (s + seq![x]).to_set() == s.to_set().insert(x),
{
    assert forall|y: u32| (s + seq![x]).to_set().contains(y) implies s.to_set().insert(x).contains(
        y,
    ) by {
        let i = choose|i: int| 0 <= i < (s + seq![x]).len() && (s + seq![x])[i] == y;
        if i < s.len() {
            assert(s[i] == y);
        } else {
            assert(y == x);
        }
    }
    assert forall|y: u32| s.to_set().insert(x).contains(y) implies (s + seq![x]).to_set().contains(
        y,
    ) by {
        if y == x {
            assert((s + seq![x])[s.len() as int] == y);
        } else {
            let i = choose|i: int| 0 <= i < s.len() && s[i] == y;
            assert((s + seq![x])[i] == y);
        }
    }
    assert((s + seq![x]).to_set() =~= s.to_set().insert(x));
}

/// The code points of `s`, each kept once, in order of first appearance.
#[verifier::loop_isolation(false)]
pub fn distinct_code_points(s: &Vec<u8>, more: &Vec<u8>) -> (r: Vec<u32>)
    ensures
        forall|a: int, b: int| 0 <= a < b < r@.len() ==> r@[a] != r@[b],
        r@.to_set() == cps(s@).to_set().union(cps(more@).to_set()),
        r@.len() <= cps(s@).len() + cps(more@).len(),
{
    let first = code_points(s);
    let second = code_points(more);
    let mut out: Vec<u32> = Vec::new();
    let mut i: usize = 0;
    while i < first.len()
        invariant
            0 <= i <= first@.len(),
            forall|a: int, b: int| 0 <= a < b < out@.len() ==> out@[a] != out@[b],
            out@.to_set() == first@.subrange(0, i as int).to_set(),
            out@.len() <= i,
        decreases first@.len() - i,
    {
        let cp = first[i];
        let mut present = false;
        let mut j: usize = 0;
        while j < out.len()
            invariant
                0 <= j <= out@.len(),
                present == (exists|a: int| 0 <= a < j && out@[a] == cp),
            decreases out@.len() - j,
        {
            if out[j] == cp {
                present = true;
            }
            j = j + 1;
        }
        let ghost prev = out@;
        proof {
            assert(present == out@.contains(cp));
            assert(first@.subrange(0, i + 1) =~= first@.subrange(0, i as int) + seq![cp]);
            lemma_concat_single_to_set(first@.subrange(0, i as int), cp);
        }
        if !present {
            out.push(cp);
            proof {
                assert(out@ =~= prev + seq![cp]);
                lemma_concat_single_to_set(prev, cp);
                assert(forall|a: int| 0 <= a < prev.len() ==> prev[a] != cp);
            }
        } else {
            proof {
                assert(first@.subrange(0, i as int).to_set().insert(cp) =~= first@.subrange(
                    0,
                    i as int,
                ).to_set());
            }
        }
        i = i + 1;
    }
    proof {
        assert(first@.subrange(0, first@.len() as int) =~= first@);
    }
    let mut i2: usize = 0;
    while i2 < second.len()
        invariant
            0 <= i2 <= second@.len(),
            forall|a: int, b: int| 0 <= a < b < out@.len() ==> out@[a] != out@[b],
            out@.to_set() == first@.to_set().union(second@.subrange(0, i2 as int).to_set()),
            out@.len() <= first@.len() + i2,
        decreases second@.len() - i2,
    {
        let cp = second[i2];
        let mut present = false;
        let mut j: usize = 0;
        while j < out.len()
            invariant
                0 <= j <= out@.len(),
                present == (exists|a: int| 0 <= a < j && out@[a] == cp),
            decreases out@.len() - j,
        {
            if out[j] == cp {
                present = true;
            }
            j = j + 1;
        }
        let ghost prev = out@;
        proof {
            assert(present == out@.contains(cp));
            assert(second@.subrange(0, i2 + 1) =~= second@.subrange(0, i2 as int) + seq![cp]);
            lemma_concat_single_to_set(second@.subrange(0, i2 as int), cp);
        }
        if !present {
            out.push(cp);
            proof {
                assert(out@ =~= prev + seq![cp]);
                lemma_concat_single_to_set(prev, cp);
                assert(forall|a: int| 0 <= a < prev.len() ==> prev[a] != cp);
                assert(out@.to_set() =~= first@.to_set().union(
                    second@.subrange(0, i2 + 1).to_set(),
                ));
            }
        } else {
            proof {
                assert(out@.to_set() =~= first@.to_set().union(
                    second@.subrange(0, i2 + 1).to_set(),
                ));
            }
        }
        i2 = i2 + 1;
    }
    proof {
        assert(second@.subrange(0, second@.len() as int) =~= second@);
    }
    out
}

} // verus!
