//! Splitting text into user-perceived characters, and folding its case.
//!
//! Both operations are table-driven Unicode algorithms that live outside this
//! crate. Their results are named here, and everything the rest of the crate
//! proves is stated in terms of these names.

use unicode_segmentation::UnicodeSegmentation;
use vstd::prelude::*;

verus! {

/// The extended grapheme clusters of `text`, in the order in which they
/// appear, as Unicode Standard Annex #29 delimits them.
pub uninterp spec fn grapheme_clusters(text: Seq<char>) -> Seq<Seq<char>>;

/// The lowercase form of `text` under the Unicode default case mapping, which
/// does not depend on any locale.
pub uninterp spec fn lowercase(text: Seq<char>) -> Seq<char>;

/// Calls `UnicodeSegmentation::graphemes` with extended clusters switched on
/// and copies each cluster into a string of its own.
///
/// Not proved: that the clusters returned are the ones `grapheme_clusters`
/// names, that none of them is empty, and that they are consecutive slices
/// of `text` which together cover all of it.
#[verifier::external_body]
pub(crate) fn graphemes(text: &str) -> (clusters: Vec<String>)
    ensures
        clusters.deep_view() == grapheme_clusters(text@),
        clusters.deep_view().flatten() == text@,
        forall|i: int| 0 <= i < clusters.len() ==> (#[trigger] clusters[i])@.len() > 0,
{
    text.graphemes(true).map(String::from).collect()
}

/// Calls `str::to_lowercase`.
///
/// Not proved: that the string returned is the one `lowercase` names.
#[verifier::external_body]
pub(crate) fn to_lowercase(text: &str) -> (folded: String)
    ensures
        folded@ == lowercase(text@),
{
    text.to_lowercase()
}

/// The text that is compared in place of `text`: the text itself where case
/// matters, its lowercase form where it does not.
pub open spec fn folded(text: Seq<char>, case_sensitive: bool) -> Seq<char> {
    if case_sensitive {
        text
    } else {
        lowercase(text)
    }
}

/// The units in which a key is compared: the grapheme clusters of its folded
/// text.
pub open spec fn comparison_units(text: Seq<char>, case_sensitive: bool) -> Seq<Seq<char>> {
    grapheme_clusters(folded(text, case_sensitive))
}

/// Splits `text` into the units in which it is compared.
pub fn segment(text: &str, case_sensitive: bool) -> (units: Vec<String>)
    ensures
        units.deep_view() == comparison_units(text@, case_sensitive),
        units.deep_view().flatten() == folded(text@, case_sensitive),
        forall|i: int| 0 <= i < units.len() ==> (#[trigger] units[i])@.len() > 0,
{
    if case_sensitive {
        graphemes(text)
    } else {
        let lowered = to_lowercase(text);
        graphemes(lowered.as_str())
    }
}

} // verus!
