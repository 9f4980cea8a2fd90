//! Trusted items for the `unescaper` crate, which resolves the escape
//! sequences of string and character literals.
use vstd::prelude::*;

verus! {

/// `unescaper::Error`, why the crate refused a text.
#[verifier::external_type_specification]
#[verifier::external_body]
pub struct ExUnescapeError(unescaper::Error);

/// What `unescaper::unescape` returns for a text: the text with its escape
/// sequences resolved, or nothing where the crate refuses the text.
pub uninterp spec fn unescaped(s: Seq<char>) -> Option<Seq<char>>;

/// Calls `unescaper::unescape`. Its result is named by `unescaped`. The
/// crate's source copies every character but a backslash as it is, so a
/// text without a backslash comes back unchanged. What it makes of escape
/// sequences is not stated here.
#[verifier::external_body]
pub(crate) fn unescape(s: &str) -> (r: Result<String, unescaper::Error>)
    ensures
        match r {
            Ok(t) => unescaped(s@) == Some(t@),
            Err(_) => unescaped(s@) is None,
        },
        !s@.contains('\\') ==> r is Ok && r->Ok_0@ == s@,
{
    unescaper::unescape(s)
}

} // verus!
