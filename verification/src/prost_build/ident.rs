//! Identifiers in snake case. Nothing in this file is proved.

use heck::ToSnakeCase;
use vstd::prelude::*;

verus! {

/// The snake case of a text, as the `heck` crate has it: the words of the
/// text in lowercase with an underscore between them.
pub uninterp spec fn snake_case_of(s: Seq<char>) -> Seq<char>;

/// `heck::ToSnakeCase::to_snake_case` for `str`: the text in snake case.
#[verifier::external_body]
pub(crate) fn to_snake(s: &str) -> (r: String)
    ensures
        r@ == snake_case_of(s@),
{
    s.to_snake_case()
}

} // verus!
