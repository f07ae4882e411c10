use vstd::prelude::*;

verus! {

/// The lowercase form that std's Unicode case mapping gives a string.
pub uninterp spec fn lower_of(s: Seq<char>) -> Seq<char>;

/// Relies on `str::to_lowercase`: its result depends on the characters of
/// the input alone.
#[verifier::external_body]
pub(crate) fn lowercase(s: &str) -> (r: String)
    ensures
        r@ == lower_of(s@),
{
    s.to_lowercase()
}

/// The word that leaves a field unchanged, in any case.
pub open spec fn is_unset(s: Seq<char>) -> bool {
    lower_of(s) == "n/a"@
}

/// Tells whether a field holds the "leave unchanged" word (`n/a`, in any
/// case).
pub fn field_is_unset(s: &str) -> (r: bool)
    ensures
        r == is_unset(s@),
{
    let folded = lowercase(s);
    let word = String::from_str("n/a");
    folded == word
}

} // verus!
