//! Grapheme clusters, counted by unicode-segmentation.

use vstd::prelude::*;

verus! {

/// The number of extended grapheme clusters in a character sequence.
pub uninterp spec fn grapheme_count_of(s: Seq<char>) -> nat;

/// Relies on `UnicodeSegmentation::graphemes(s, true)`: counts the extended
/// grapheme clusters of `s`, which depends on its characters alone.
#[verifier::external_body]
fn grapheme_count(s: &str) -> (r: usize)
    ensures
        r as nat == grapheme_count_of(s@),
{
    unicode_segmentation::UnicodeSegmentation::graphemes(s, true).count()
}

/// Whether `s` is exactly one extended grapheme cluster.
pub fn is_single_grapheme(s: &str) -> (r: bool)
    ensures
        r == (grapheme_count_of(s@) == 1),
{
    grapheme_count(s) == 1
}

} // verus!
