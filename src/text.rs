use vstd::prelude::*;

verus! {

/// Relies on `<[&str]>::concat`: the two strings one after the other.
#[verifier::external_body]
pub(crate) fn concat_str(a: &str, b: &str) -> (r: String)
    ensures
        r@ == a@ + b@,
{
    [a, b].concat()
}

} // verus!
