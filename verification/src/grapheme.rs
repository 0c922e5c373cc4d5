//! Grapheme-cluster reversal.
//!
//! The suffix index stores each key reversed, and the reversal must not split
//! a user-perceived character, so it walks extended grapheme clusters rather
//! than code units.  The segmentation itself is delegated to the
//! `unicode_segmentation` crate; its result is named by the uninterpreted
//! function [`grev`], and every contract that speaks about suffix keys speaks
//! through that name.

use vstd::prelude::*;

verus! {

pub uninterp spec fn grev(s: Seq<u8>) -> Seq<u8>;

/// Relies on `unicode_segmentation::UnicodeSegmentation::graphemes` (together
/// with `String::from_utf8_lossy`): the extended grapheme clusters of the
/// decoded text, reversed and concatenated again.  The clusters partition the
/// text, so the result is a function of the input bytes alone and it is
/// empty exactly when the input is empty.  Reversal keeps the decoded text's
/// byte count, and lossy decoding emits at most the three-byte replacement
/// character for each input byte of an ill-formed sequence, so the result
/// holds at most three bytes per input byte.
#[verifier::external_body]
pub fn reverse_graphemes(s: &Vec<u8>) -> (r: Vec<u8>)
    ensures
        r@ == grev(s@),
        (r@.len() == 0) == (s@.len() == 0),
        r@.len() <= 3 * s@.len(),
{
    let text = String::from_utf8_lossy(s.as_slice());
    let out: String = unicode_segmentation::UnicodeSegmentation::graphemes(text.as_ref(), true)
        .rev()
        .collect();
    out.into_bytes()
}

} // verus!
