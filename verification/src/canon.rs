use vstd::prelude::*;

verus! {

/// What `str::to_lowercase` returns for a given character sequence.
/// Identity of tables and columns is decided by this canonical form.
pub uninterp spec fn lower_of(s: Seq<char>) -> Seq<char>;

/// Relies on `str::to_lowercase` from std: the result is a function of the
/// characters alone, here named `lower_of`.
#[verifier::external_body]
pub(crate) fn lowercase(s: &str) -> (r: String)
    ensures
        r@ == lower_of(s@),
{
    s.to_lowercase()
}

} // verus!
