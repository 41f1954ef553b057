//! Unicode Normalization Form C, as the `unicode-normalization` crate
//! computes it.
use unicode_normalization::UnicodeNormalization;
use vstd::prelude::*;

verus! {

/// What `unicode_normalization::is_nfc` answers for a text: whether it is in
/// Normalization Form C.
pub uninterp spec fn in_nfc(text: Seq<char>) -> bool;

/// What the `nfc` iterator of `unicode_normalization` yields for a text: its
/// canonical decomposition followed by canonical composition.
pub uninterp spec fn nfc_of(text: Seq<char>) -> Seq<char>;

/// Calls `unicode_normalization::is_nfc`. Nothing is proved of it: the
/// contract gives its answer the name `in_nfc`.
#[verifier::external_body]
pub(crate) fn is_nfc(s: &str) -> (r: bool)
    ensures
        r == in_nfc(s@),
{
    unicode_normalization::is_nfc(s)
}

/// Collects `UnicodeNormalization::nfc` of a string slice into a `String`.
/// Nothing is proved of it: the contract gives the characters that come out
/// the name `nfc_of`.
#[verifier::external_body]
pub(crate) fn to_nfc(s: &str) -> (r: String)
    ensures
        r@ == nfc_of(s@),
{
    s.nfc().collect::<String>()
}

} // verus!
