//! Trusted items for the `ecow` crate: its clone-on-write string and vector.
//!
//! Verus sees neither type's inside. A string is known by the characters it
//! holds (`eco_chars`), a vector of tokens or expressions by the views of
//! the elements it holds (`token_views`, `expr_views`). Where a vector's
//! storage is shared, changing it first copies its elements with their
//! `clone`, which for tokens and expressions is proved to keep the view.
use vstd::prelude::*;
use vstd::string::StringSliceAdditionalSpecFns;
use ecow::{EcoString, EcoVec};
use crate::def::{Token, TokenView, Expr, ExprView};

verus! {

/// `ecow::EcoString`, the crate's reference-counted, inline-optimised string.
#[verifier::external_type_specification]
#[verifier::external_body]
pub struct ExEcoString(EcoString);

/// `ecow::EcoVec<T>`, the crate's reference-counted, clone-on-write vector.
#[verifier::external_type_specification]
#[verifier::external_body]
#[verifier::reject_recursive_types(T)]
pub struct ExEcoVec<T>(EcoVec<T>);

/// The characters that an `EcoString` holds.
pub uninterp spec fn eco_chars(s: EcoString) -> Seq<char>;

/// The views of the tokens that an `EcoVec<Token>` holds, in order.
pub uninterp spec fn token_views(v: EcoVec<Token>) -> Seq<TokenView>;

/// The views of the expressions that an `EcoVec<Expr>` holds, in order.
pub uninterp spec fn expr_views(v: EcoVec<Expr>) -> Seq<ExprView>;

/// Calls `EcoString::new`: the new string holds no character.
#[verifier::external_body]
pub(crate) fn eco_string_new() -> (r: EcoString)
    ensures
        eco_chars(r) == Seq::<char>::empty(),
{
    EcoString::new()
}

/// Calls `EcoString::push`: the string afterwards holds what it held, then `c`.
#[verifier::external_body]
pub(crate) fn eco_string_push(s: &mut EcoString, c: char)
    ensures
        eco_chars(*final(s)) == eco_chars(*old(s)).push(c),
{
    s.push(c)
}

/// Calls `EcoString::as_str`: the slice holds the string's characters, and
/// like every Rust string slice it is no longer than `isize::MAX` bytes.
#[verifier::external_body]
pub(crate) fn eco_string_as_str(s: &EcoString) -> (r: &str)
    ensures
        r@ == eco_chars(*s),
        r.spec_bytes().len() <= isize::MAX,
{
    s.as_str()
}

/// `EcoString`'s `Clone::clone`: the copy is the same string. (Contracts
/// here know a string by its characters only, and the copy holds the same.)
pub assume_specification[ <EcoString as Clone>::clone ](s: &EcoString) -> (r: EcoString)
    ensures
        r == *s,
;

/// Calls `EcoString::from` on a string slice: the new string holds the
/// slice's characters.
#[verifier::external_body]
pub(crate) fn eco_string_from(s: &str) -> (r: EcoString)
    ensures
        eco_chars(r) == s@,
{
    EcoString::from(s)
}

/// The characters of `s` with every occurrence of `from` replaced by `to`,
/// the character sequences of a single character each.
pub open spec fn replace_char(s: Seq<char>, from: char, to: char) -> Seq<char> {
    s.map_values(|c: char| if c == from { to } else { c })
}

/// What `EcoString::replace` returns for a string, a pattern and a replacement.
pub uninterp spec fn eco_replaced(s: Seq<char>, pat: Seq<char>, to: Seq<char>) -> Seq<char>;

/// Calls `EcoString::replace`, which replaces every match of `pat` by `to`.
/// Its result is named by `eco_replaced`; where the pattern and the
/// replacement are one character each, every occurrence of that character is
/// replaced and nothing else changes. For longer patterns nothing more is
/// stated here.
#[verifier::external_body]
pub(crate) fn eco_string_replace(s: &EcoString, pat: &str, to: &str) -> (r: EcoString)
    ensures
        eco_chars(r) == eco_replaced(eco_chars(*s), pat@, to@),
        pat@.len() == 1 && to@.len() == 1 ==> eco_chars(r) == replace_char(
            eco_chars(*s),
            pat@[0],
            to@[0],
        ),
{
    s.replace(pat, to)
}

/// Calls `EcoVec::<Token>::new`: the vector holds no token.
#[verifier::external_body]
pub(crate) fn token_vec_new() -> (r: EcoVec<Token>)
    ensures
        token_views(r) == Seq::<TokenView>::empty(),
{
    EcoVec::new()
}

/// Calls `EcoVec::<Token>::push`: the vector afterwards holds what it held
/// (cloned where its storage was shared), then `t`.
#[verifier::external_body]
pub(crate) fn token_vec_push(v: &mut EcoVec<Token>, t: Token)
    ensures
        token_views(*final(v)) == token_views(*old(v)).push(t@),
{
    v.push(t)
}

/// Calls `EcoVec::<Token>::as_slice`: the slice holds the vector's tokens.
#[verifier::external_body]
pub(crate) fn token_vec_as_slice(v: &EcoVec<Token>) -> (r: &[Token])
    ensures
        r@.map_values(|t: Token| t@) == token_views(*v),
{
    v.as_slice()
}

/// Calls `EcoVec::<Expr>::new`: the vector holds no expression.
#[verifier::external_body]
pub(crate) fn expr_vec_new() -> (r: EcoVec<Expr>)
    ensures
        expr_views(r) == Seq::<ExprView>::empty(),
{
    EcoVec::new()
}

/// Calls `EcoVec::<Expr>::push`: the vector afterwards holds what it held
/// (cloned where its storage was shared), then `e`.
#[verifier::external_body]
pub(crate) fn expr_vec_push(v: &mut EcoVec<Expr>, e: Expr)
    ensures
        expr_views(*final(v)) == expr_views(*old(v)).push(e@),
{
    v.push(e)
}

} // verus!
