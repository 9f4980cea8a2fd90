//! Building a primitive syntax tree from tokens: declarations become
//! bindings, and everything else is passed over for now.
use vstd::prelude::*;
use ecow::{EcoString, EcoVec};
use crate::def::{BindKind, CodePos, Expr, ExprView, KindView, Token, TokenKind, TokenView, VarKind, expr_wf, kind_wf};
use crate::eco::{
    eco_chars, eco_string_as_str, token_views, token_vec_as_slice, token_vec_new, token_vec_push,
    expr_views, expr_vec_new, expr_vec_push,
};
use crate::lexer::{
    Lexeme, lexed, lex_from, step_len, step_kind, step_rule, span, is_longest, rule_matches, wins,
    newlines, last_newline, byte_len, trim, lemma_longest_unique, lemma_step_len_range,
};
use crate::select::lemma_winner_exists;
use crate::text::{
    chars_of, lemma_byte_len_encoding, lemma_trim_plain, lemma_trim_keeps_first,
    lemma_byte_len_at_least_len,
};
use crate::aster::helper::errors::{AstError, AstErrorView, Construct, malformed};
use crate::aster::helper::single::{kind_of, literal_ok, val_of, parse_val, spelled};

pub mod helper;

verus! {

/// The kind written as the tokens `toks` after a declared name: what the
/// single-value reader gives for no token or one; a longer kind is not
/// implemented yet, with no position reported.
pub open spec fn decl_kind_of(toks: Seq<TokenView>, pos: CodePos) -> Result<KindView, AstErrorView> {
    if toks.len() < 2 {
        kind_of(toks, pos)
    } else {
        Err(AstErrorView::Unimplemented { pos: None })
    }
}

/// Reads the kind written after a declared name.
pub fn to_varkind(toks: EcoVec<Token>, pos: CodePos) -> (r: Result<VarKind, AstError>)
    ensures
        r matches Ok(k) ==> kind_wf(k@),
        match r {
            Ok(k) => decl_kind_of(token_views(toks), pos) == Ok::<KindView, AstErrorView>(k@),
            Err(e) => decl_kind_of(token_views(toks), pos) == Err::<KindView, AstErrorView>(e@),
        },
{
    let n = token_vec_as_slice(&toks).len();
    if n < 2 {
        crate::aster::helper::single::to_varkind(toks, pos)
    } else {
        Err(AstError::Unimplemented { pos: None })
    }
}

/// The index of the first `=` token in `ts` at or after `from`, or the
/// length of `ts` where there is none.
pub open spec fn next_eq(ts: Seq<TokenView>, from: int) -> int
    decreases ts.len() - from,
{
    if from >= ts.len() {
        ts.len() as int
    } else if ts[from].kind == TokenKind::EqSign {
        from
    } else {
        next_eq(ts, from + 1)
    }
}

/// The index of the first end of expression (`.`) in `ts` at or after
/// `from`, or the length of `ts` where there is none.
pub open spec fn chunk_end(ts: Seq<TokenView>, from: int) -> int
    decreases ts.len() - from,
{
    if from >= ts.len() {
        ts.len() as int
    } else if ts[from].kind == TokenKind::ExprEnd {
        from
    } else {
        chunk_end(ts, from + 1)
    }
}

/// The kind of binding that the flags (mutable, definition) ask for.
pub open spec fn bind_kind_of(params: (bool, bool)) -> BindKind {
    if params.0 {
        BindKind::MutValue
    } else if params.1 {
        BindKind::Define
    } else {
        BindKind::Value
    }
}

/// What `parse_bind` gives for the tokens `ts` of a declaration, the
/// keyword first: the name is the first token before the first `=`, the
/// kind is written by the tokens between it and that `=`, and the value by
/// the tokens between that `=` and the next one (or the end).
pub open spec fn bind_of(ts: Seq<TokenView>, params: (bool, bool)) -> Result<ExprView, AstErrorView> {
    let errpos = ts[0].pos;
    let e1 = next_eq(ts, 1);
    let name_part = ts.subrange(1, e1);
    if name_part.len() == 0 {
        Err(malformed(Construct::Declaration, errpos))
    } else {
        match decl_kind_of(name_part.drop_first(), errpos) {
            Err(e) => Err(e),
            Ok(k) => if e1 >= ts.len() {
                Err(malformed(Construct::Declaration, errpos))
            } else {
                match val_of(ts.subrange(e1 + 1, next_eq(ts, e1 + 1)), errpos) {
                    Ok(v) => Ok(
                        ExprView::Bind {
                            id: name_part[0].literal,
                            kind: (bind_kind_of(params), k),
                            val: Box::new(v),
                        },
                    ),
                    Err(e) => Err(e),
                }
            },
        }
    }
}

/// Whether `parse_bind` panics on the tokens `ts`: where it reaches a value
/// of one token that cannot be read alone.
pub open spec fn bind_panics(ts: Seq<TokenView>) -> bool {
    let e1 = next_eq(ts, 1);
    let e2 = next_eq(ts, e1 + 1);
    &&& 2 <= e1 <= 3
    &&& e1 < ts.len()
    &&& e2 == e1 + 2
    &&& !literal_ok(ts[e1 + 1])
}

/// A declaration chunk ends inside the tokens, and after a first token
/// that is not an end of expression.
pub proof fn lemma_chunk_end_range(ts: Seq<TokenView>, from: int)
    requires
        0 <= from,
    ensures
        from <= chunk_end(ts, from) <= ts.len() || (from > ts.len() && chunk_end(ts, from)
            == ts.len()),
        from < ts.len() && ts[from].kind != TokenKind::ExprEnd ==> from < chunk_end(ts, from),
    decreases ts.len() - from,
{
    if from < ts.len() && ts[from].kind != TokenKind::ExprEnd {
        lemma_chunk_end_range(ts, from + 1);
    }
}

/// What `next_eq` finds, computed over the tokens of `ts`.
fn next_eq_index(ts: &[Token], from: usize) -> (r: usize)
    requires
        from <= ts@.len(),
    ensures
        r == next_eq(ts@.map_values(|t: Token| t@), from as int),
        from <= r <= ts@.len(),
{
    let ghost tv = ts@.map_values(|t: Token| t@);
    let mut k = from;
    while k < ts.len() && ts[k].kind != TokenKind::EqSign
        invariant
            from <= k <= ts@.len(),
            tv == ts@.map_values(|t: Token| t@),
            next_eq(tv, k as int) == next_eq(tv, from as int),
        decreases ts@.len() - k,
    {
        proof {
            assert(tv[k as int] == ts@[k as int]@);
        }
        k += 1;
    }
    proof {
        if k < ts@.len() {
            assert(tv[k as int] == ts@[k as int]@);
        }
    }
    k
}

/// What `chunk_end` finds, computed over the tokens of `ts`.
fn chunk_end_index(ts: &[Token], from: usize) -> (r: usize)
    requires
        from <= ts@.len(),
    ensures
        r == chunk_end(ts@.map_values(|t: Token| t@), from as int),
        from <= r <= ts@.len(),
{
    let ghost tv = ts@.map_values(|t: Token| t@);
    let mut k = from;
    while k < ts.len() && ts[k].kind != TokenKind::ExprEnd
        invariant
            from <= k <= ts@.len(),
            tv == ts@.map_values(|t: Token| t@),
            chunk_end(tv, k as int) == chunk_end(tv, from as int),
        decreases ts@.len() - k,
    {
        proof {
            assert(tv[k as int] == ts@[k as int]@);
        }
        k += 1;
    }
    proof {
        if k < ts@.len() {
            assert(tv[k as int] == ts@[k as int]@);
        }
    }
    k
}

/// The tokens of `ts` from `from` to `to`, as a vector of their own.
fn token_range(ts: &[Token], from: usize, to: usize) -> (r: EcoVec<Token>)
    requires
        from <= to <= ts@.len(),
    ensures
        token_views(r) == ts@.map_values(|t: Token| t@).subrange(from as int, to as int),
{
    let ghost tv = ts@.map_values(|t: Token| t@);
    let mut r = token_vec_new();
    let mut k = from;
    while k < to
        invariant
            from <= k <= to <= ts@.len(),
            tv == ts@.map_values(|t: Token| t@),
            token_views(r) == tv.subrange(from as int, k as int),
        decreases to - k,
    {
        token_vec_push(&mut r, ts[k].clone());
        proof {
            assert(tv.subrange(from as int, k + 1) =~= tv.subrange(from as int, k as int).push(
                tv[k as int],
            ));
        }
        k += 1;
    }
    r
}

/// Parses a declaration from its tokens `tokens`, the keyword first and
/// the end of expression left out; `bind_kind` holds whether the binding is
/// mutable and whether it is a type definition.
pub fn parse_bind(tokens: EcoVec<Token>, bind_kind: (bool, bool)) -> (r: Result<Expr, AstError>)
    requires
        token_views(tokens).len() >= 1,
        !bind_panics(token_views(tokens)),
    ensures
        r matches Ok(e) ==> expr_wf(e@),
        match r {
            Ok(e) => bind_of(token_views(tokens), bind_kind) == Ok::<ExprView, AstErrorView>(e@),
            Err(e) => bind_of(token_views(tokens), bind_kind) == Err::<ExprView, AstErrorView>(e@),
        },
{
    let ts = token_vec_as_slice(&tokens);
    let ghost tv = token_views(tokens);
    proof {
        assert(ts@.map_values(|t: Token| t@) == tv);
    }
    let errpos = ts[0].pos;
    proof {
        assert(ts@[0]@ == tv[0]);
    }
    let e1 = next_eq_index(ts, 1);
    if e1 == 1 {
        return Err(AstError::Malformed { what: Construct::Declaration, pos: errpos });
    }
    let holds = match to_varkind(token_range(ts, 2, e1), errpos) {
        Ok(k) => k,
        Err(e) => {
            proof {
                assert(tv.subrange(1, e1 as int).drop_first() =~= tv.subrange(2, e1 as int));
            }
            return Err(e);
        },
    };
    proof {
        assert(tv.subrange(1, e1 as int).drop_first() =~= tv.subrange(2, e1 as int));
    }
    if e1 >= ts.len() {
        return Err(AstError::Malformed { what: Construct::Declaration, pos: errpos });
    }
    let e2 = next_eq_index(ts, e1 + 1);
    proof {
        assert(tv.subrange(e1 + 1, e2 as int).len() == 1 ==> tv.subrange(e1 + 1, e2 as int)[0]
            == tv[e1 + 1]);
    }
    let val = match parse_val(token_range(ts, e1 + 1, e2), errpos) {
        Ok(v) => v,
        Err(e) => {
            return Err(e);
        },
    };
    proof {
        assert(ts@[1]@ == tv[1]);
        assert(tv.subrange(1, e1 as int)[0] == tv[1]);
    }
    Ok(
        Expr::Bind {
            id: ts[1].literal.clone(),
            kind: (
                if bind_kind.0 {
                    BindKind::MutValue
                } else if bind_kind.1 {
                    BindKind::Define
                } else {
                    BindKind::Value
                },
                holds,
            ),
            val,
        },
    )
}

/// What `parse_rebind` gives for the tokens `ts` of a change of a binding,
/// `name = value`: the name is the first token, and the value is written by
/// the tokens after the `=` up to the next `=` (or the end).
pub open spec fn rebind_of(ts: Seq<TokenView>) -> Result<ExprView, AstErrorView> {
    match val_of(ts.subrange(2, next_eq(ts, 2)), ts[0].pos) {
        Ok(v) => Ok(ExprView::ReBind { id: ts[0].literal, val: Box::new(v) }),
        Err(e) => Err(e),
    }
}

/// Whether `parse_rebind` panics on the tokens `ts`: where its value is one
/// token that cannot be read alone.
pub open spec fn rebind_panics(ts: Seq<TokenView>) -> bool {
    next_eq(ts, 2) == 3 && !literal_ok(ts[2])
}

/// Parses a change of an existing binding from its tokens `tokens`: the
/// name, the `=`, then the value, the end of expression left out.
pub fn parse_rebind(tokens: EcoVec<Token>) -> (r: Result<Expr, AstError>)
    requires
        token_views(tokens).len() >= 2,
        !rebind_panics(token_views(tokens)),
    ensures
        r matches Ok(e) ==> expr_wf(e@),
        match r {
            Ok(e) => rebind_of(token_views(tokens)) == Ok::<ExprView, AstErrorView>(e@),
            Err(e) => rebind_of(token_views(tokens)) == Err::<ExprView, AstErrorView>(e@),
        },
{
    let ts = token_vec_as_slice(&tokens);
    let ghost tv = token_views(tokens);
    proof {
        assert(ts@.map_values(|t: Token| t@) == tv);
        assert(ts@[0]@ == tv[0]);
    }
    let e2 = next_eq_index(ts, 2);
    proof {
        assert(tv.subrange(2, e2 as int).len() == 1 ==> tv.subrange(2, e2 as int)[0] == tv[2]);
    }
    let val = match parse_val(token_range(ts, 2, e2), ts[0].pos) {
        Ok(v) => v,
        Err(e) => {
            return Err(e);
        },
    };
    Ok(Expr::ReBind { id: ts[0].literal.clone(), val })
}

/// The flags (mutable, definition) that a declaration keyword spelled `w`
/// asks for; nothing for another spelling.
pub open spec fn decl_params(w: Seq<char>) -> Option<(bool, bool)> {
    if w == seq!['m', 'u', 't'] {
        Some((true, false))
    } else if w == seq!['l', 'e', 't'] {
        Some((false, false))
    } else if w == seq!['d', 'e', 'f'] {
        Some((false, true))
    } else {
        None
    }
}

/// How building a syntax tree ends: with the tree, with an error, or in a
/// panic.
pub enum AstOutcome {
    Built(Seq<ExprView>),
    Refused(AstErrorView),
    Panics,
}

/// How building a syntax tree goes on from token `i`, where the bindings
/// `acc` were built so far.
///
/// A `let`, `mut` or `def` starts a declaration that reaches to the next
/// end of expression (or the end), which becomes a binding; building goes
/// on at that end of expression. A name followed by `=` starts a change of
/// a binding, which reaches as far and becomes a rebinding node. An error
/// token stops the building. Any other token is passed over.
pub open spec fn ast_from(ts: Seq<TokenView>, i: int, acc: Seq<ExprView>) -> AstOutcome
    decreases ts.len() - i,
{
    if i < 0 || i >= ts.len() {
        AstOutcome::Built(acc)
    } else {
        let t = ts[i];
        match t.kind {
            TokenKind::Let | TokenKind::Mut | TokenKind::Def => {
                let end = chunk_end(ts, i);
                let chunk = ts.subrange(i, end);
                match decl_params(t.literal) {
                    None => AstOutcome::Panics,
                    Some(params) => if bind_panics(chunk) {
                        AstOutcome::Panics
                    } else {
                        match bind_of(chunk, params) {
                            Ok(b) => {
                                proof {
                                    lemma_chunk_end_range(ts, i);
                                }
                                ast_from(ts, end, acc.push(b))
                            },
                            Err(e) => AstOutcome::Refused(e),
                        }
                    },
                }
            },
            TokenKind::Word => if i + 1 >= ts.len() {
                AstOutcome::Panics
            } else if ts[i + 1].kind == TokenKind::EqSign {
                let end = chunk_end(ts, i);
                let chunk = ts.subrange(i, end);
                if rebind_panics(chunk) {
                    AstOutcome::Panics
                } else {
                    match rebind_of(chunk) {
                        Ok(b) => {
                            proof {
                                lemma_chunk_end_range(ts, i);
                            }
                            ast_from(ts, end, acc.push(b))
                        },
                        Err(e) => AstOutcome::Refused(e),
                    }
                }
            } else {
                ast_from(ts, i + 1, acc)
            },
            TokenKind::Error => AstOutcome::Refused(
                AstErrorView::Unknown { token: t.literal, pos: t.pos },
            ),
            _ => ast_from(ts, i + 1, acc),
        }
    }
}

/// The outcome of building a syntax tree from the tokens `ts`.
pub open spec fn ast_of(ts: Seq<TokenView>) -> AstOutcome {
    ast_from(ts, 0, Seq::empty())
}

/// Computes `decl_params` for a keyword's text.
fn decl_params_of(lit: &EcoString) -> (r: Option<(bool, bool)>)
    ensures
        r == decl_params(eco_chars(*lit)),
{
    let w = chars_of(eco_string_as_str(lit));
    let m: [char; 3] = ['m', 'u', 't'];
    let l: [char; 3] = ['l', 'e', 't'];
    let d: [char; 3] = ['d', 'e', 'f'];
    proof {
        assert(m@ =~= seq!['m', 'u', 't']);
        assert(l@ =~= seq!['l', 'e', 't']);
        assert(d@ =~= seq!['d', 'e', 'f']);
    }
    if spelled(w.as_slice(), &m) {
        Some((true, false))
    } else if spelled(w.as_slice(), &l) {
        Some((false, false))
    } else if spelled(w.as_slice(), &d) {
        Some((false, true))
    } else {
        None
    }
}

/// Computes `literal_ok`: whether a token can be read alone.
fn literal_fits(t: &Token) -> (r: bool)
    ensures
        r == literal_ok(t@),
{
    match t.kind {
        TokenKind::Chr | TokenKind::Str => {
            let w = chars_of(eco_string_as_str(&t.literal));
            w.len() >= 1
        },
        TokenKind::RawStr => {
            let text = eco_string_as_str(&t.literal);
            proof {
                lemma_byte_len_encoding(text@);
            }
            text.len() >= 2
        },
        _ => true,
    }
}

/// Computes `bind_panics` over the tokens of a declaration.
fn bind_would_panic(ts: &[Token]) -> (r: bool)
    ensures
        r == bind_panics(ts@.map_values(|t: Token| t@)),
{
    let ghost tv = ts@.map_values(|t: Token| t@);
    if ts.len() < 2 {
        return false;
    }
    let e1 = next_eq_index(ts, 1);
    if e1 < 2 || e1 > 3 || e1 >= ts.len() {
        return false;
    }
    let e2 = next_eq_index(ts, e1 + 1);
    if e2 != e1 + 2 {
        return false;
    }
    proof {
        assert(tv[e1 + 1] == ts@[e1 + 1]@);
    }
    !literal_fits(&ts[e1 + 1])
}

/// Computes `rebind_panics` over the tokens of a change of a binding.
fn rebind_would_panic(ts: &[Token]) -> (r: bool)
    requires
        ts@.len() >= 2,
    ensures
        r == rebind_panics(ts@.map_values(|t: Token| t@)),
{
    let ghost tv = ts@.map_values(|t: Token| t@);
    let e2 = next_eq_index(ts, 2);
    if e2 != 3 {
        return false;
    }
    proof {
        assert(tv[2] == ts@[2]@);
    }
    !literal_fits(&ts[2])
}

/// Builds a primitive syntax tree from the tokens `tokens`, or reports
/// that the building panics (`None`).
fn build(tokens: &EcoVec<Token>) -> (r: Option<Result<EcoVec<Expr>, AstError>>)
    ensures
        r matches Some(Ok(v)) ==> forall|k: int| 0 <= k < expr_views(v).len() ==> expr_wf(#[trigger] expr_views(v)[k]),
        match r {
            None => ast_of(token_views(*tokens)) is Panics,
            Some(Ok(v)) => ast_of(token_views(*tokens)) == AstOutcome::Built(expr_views(v)),
            Some(Err(e)) => ast_of(token_views(*tokens)) == AstOutcome::Refused(e@),
        },
{
    let ts = token_vec_as_slice(tokens);
    let ghost tv = token_views(*tokens);
    proof {
        assert(ts@.map_values(|t: Token| t@) == tv);
    }
    let mut res = expr_vec_new();
    let mut i: usize = 0;
    while i < ts.len()
        invariant
            tv == token_views(*tokens),
            ts@.map_values(|t: Token| t@) == tv,
            i <= tv.len(),
            ast_from(tv, i as int, expr_views(res)) == ast_of(tv),
            forall|k: int| 0 <= k < expr_views(res).len() ==> expr_wf(#[trigger] expr_views(res)[k]),
        decreases tv.len() - i,
    {
        let t = &ts[i];
        proof {
            assert(t@ == tv[i as int]);
        }
        match t.kind {
            TokenKind::Let | TokenKind::Mut | TokenKind::Def => {
                let end = chunk_end_index(ts, i);
                proof {
                    lemma_chunk_end_range(tv, i as int);
                }
                let bind = token_range(ts, i, end);
                let params = match decl_params_of(&t.literal) {
                    Some(p) => p,
                    None => {
                        return None;
                    },
                };
                let bind_tokens = token_vec_as_slice(&bind);
                if bind_would_panic(bind_tokens) {
                    return None;
                }
                match parse_bind(bind, params) {
                    Ok(b) => {
                        expr_vec_push(&mut res, b);
                    },
                    Err(e) => {
                        return Some(Err(e));
                    },
                }
                i = end;
            },
            TokenKind::Word => {
                if i + 1 >= ts.len() {
                    return None;
                }
                proof {
                    assert(ts@[i + 1]@ == tv[i + 1]);
                }
                if ts[i + 1].kind == TokenKind::EqSign {
                    let end = chunk_end_index(ts, i);
                    proof {
                        lemma_chunk_end_range(tv, i + 1);
                        assert(chunk_end(tv, i as int) == chunk_end(tv, i + 1));
                    }
                    let rebind = token_range(ts, i, end);
                    if rebind_would_panic(token_vec_as_slice(&rebind)) {
                        return None;
                    }
                    match parse_rebind(rebind) {
                        Ok(e) => {
                            expr_vec_push(&mut res, e);
                            i = end;
                        },
                        Err(e) => {
                            return Some(Err(e));
                        },
                    }
                } else {
                    i += 1;
                }
            },
            TokenKind::Error => {
                return Some(Err(AstError::Unknown { token: t.literal.clone(), pos: t.pos }));
            },
            _ => {
                i += 1;
            },
        }
    }
    Some(Ok(res))
}

/// Builds a primitive syntax tree from the tokens `tokens`: a binding for
/// each declaration, in order, or the error that stopped the building.
pub fn primitive_ast(tokens: EcoVec<Token>) -> (r: Result<EcoVec<Expr>, AstError>)
    requires
        !(ast_of(token_views(tokens)) is Panics),
    ensures
        r matches Ok(v) ==> forall|k: int| 0 <= k < expr_views(v).len() ==> expr_wf(#[trigger] expr_views(v)[k]),
        match r {
            Ok(v) => ast_of(token_views(tokens)) == AstOutcome::Built(expr_views(v)),
            Err(e) => ast_of(token_views(tokens)) == AstOutcome::Refused(e@),
        },
{
    // `build` gives nothing only where building panics, which is ruled out.
    build(&tokens).unwrap()
}

/// Builds a primitive syntax tree from the tokens `tokens` where that does
/// not panic, and gives nothing where it would.
pub fn try_primitive_ast(tokens: EcoVec<Token>) -> (r: Option<Result<EcoVec<Expr>, AstError>>)
    ensures
        r matches Some(Ok(v)) ==> forall|k: int| 0 <= k < expr_views(v).len() ==> expr_wf(#[trigger] expr_views(v)[k]),
        r is None <==> ast_of(token_views(tokens)) is Panics,
        r matches Some(Ok(v)) ==> ast_of(token_views(tokens)) == AstOutcome::Built(expr_views(v)),
        r matches Some(Err(e)) ==> ast_of(token_views(tokens)) == AstOutcome::Refused(e@),
{
    match build(&tokens) {
        None => None,
        Some(_) => Some(primitive_ast(tokens)),
    }
}

/// Passes on an expression that is not empty, and refuses an empty one.
#[allow(dead_code)]
fn check(expr: Expr) -> (r: Result<Expr, ()>)
    ensures
        r is Err <==> expr@ is Empty,
        r matches Ok(e) ==> e == expr,
{
    if Expr::check(&expr) {
        return Err(());
    }
    Ok(expr)
}

/// From any token on, building adds bindings and changes of bindings only:
/// where it ends with a tree, every node that was not there before is one.
proof fn lemma_ast_from_binds(ts: Seq<TokenView>, i: int, acc: Seq<ExprView>)
    requires
        forall|k: int| 0 <= k < acc.len() ==> (#[trigger] acc[k]) is Bind || acc[k] is ReBind,
    ensures
        ast_from(ts, i, acc) matches AstOutcome::Built(s) ==> forall|k: int|
            0 <= k < s.len() ==> (#[trigger] s[k]) is Bind || s[k] is ReBind,
    decreases ts.len() - i,
{
    if 0 <= i < ts.len() {
        let t = ts[i];
        match t.kind {
            TokenKind::Let | TokenKind::Mut | TokenKind::Def => {
                let end = chunk_end(ts, i);
                let chunk = ts.subrange(i, end);
                if let Some(params) = decl_params(t.literal) {
                    if !bind_panics(chunk) {
                        if let Ok(b) = bind_of(chunk, params) {
                            lemma_chunk_end_range(ts, i);
                            let acc2 = acc.push(b);
                            assert forall|k: int| 0 <= k < acc2.len() implies (#[trigger] acc2[k]) is Bind
                                || acc2[k] is ReBind by {
                                if k < acc.len() {
                                    assert(acc2[k] == acc[k]);
                                }
                            }
                            lemma_ast_from_binds(ts, end, acc2);
                        }
                    }
                }
            },
            TokenKind::Word => {
                if i + 1 < ts.len() && ts[i + 1].kind != TokenKind::EqSign {
                    lemma_ast_from_binds(ts, i + 1, acc);
                } else if i + 1 < ts.len() {
                    let end = chunk_end(ts, i);
                    let chunk = ts.subrange(i, end);
                    if !rebind_panics(chunk) {
                        if let Ok(b) = rebind_of(chunk) {
                            lemma_chunk_end_range(ts, i);
                            let acc2 = acc.push(b);
                            assert forall|k: int| 0 <= k < acc2.len() implies (#[trigger] acc2[k])
                                is Bind || acc2[k] is ReBind by {
                                if k < acc.len() {
                                    assert(acc2[k] == acc[k]);
                                }
                            }
                            lemma_ast_from_binds(ts, end, acc2);
                        }
                    }
                }
            },
            TokenKind::Error => {},
            _ => {
                lemma_ast_from_binds(ts, i + 1, acc);
            },
        }
    }
}

/// A primitive syntax tree holds bindings only: every node that building
/// gives is a binding or a change of a binding.
pub proof fn lemma_ast_holds_bindings(ts: Seq<TokenView>)
    ensures
        ast_of(ts) matches AstOutcome::Built(s) ==> forall|k: int|
            0 <= k < s.len() ==> (#[trigger] s[k]) is Bind || s[k] is ReBind,
{
    lemma_ast_from_binds(ts, 0, Seq::empty());
}

/// A token that the tree builder can take: it can be read alone, and a
/// declaration keyword spells its keyword.
pub open spec fn token_readable(t: TokenView) -> bool {
    &&& literal_ok(t)
    &&& (t.kind == TokenKind::Let || t.kind == TokenKind::Mut || t.kind == TokenKind::Def)
        ==> decl_params(t.literal) is Some
}

/// The token that lexing makes at `i` where it is not skipped can be read
/// alone.
proof fn lemma_step_readable(input: Seq<char>, i: int)
    requires
        0 <= i < input.len(),
    ensures
        token_readable(
            TokenView {
                kind: step_kind(input, i),
                literal: trim(span(input, i, step_len(input, i))),
                pos: CodePos(0, 0),
            },
        ),
{
    let k = step_kind(input, i);
    let text = span(input, i, step_len(input, i));
    if k == TokenKind::Chr || k == TokenKind::Str || k == TokenKind::RawStr || k == TokenKind::Let
        || k == TokenKind::Mut || k == TokenKind::Def {
        assert(exists|n: int| is_longest(input, i, n));
        let n = choose|n: int| is_longest(input, i, n);
        lemma_longest_unique(input, i, n);
        let l0 = choose|l: Lexeme| #[trigger] rule_matches(l, span(input, i, n));
        assert(rule_matches(l0, text));
        lemma_winner_exists(text);
        let w = choose|l: Lexeme| wins(l, text);
        assert(step_rule(input, i) == Some(w));
        assert(w == Lexeme::Tok(k));
        assert(rule_matches(Lexeme::Tok(k), text));
        if k == TokenKind::Chr || k == TokenKind::Str {
            lemma_trim_keeps_first(text);
        } else if k == TokenKind::RawStr {
            lemma_trim_plain(text);
            lemma_byte_len_at_least_len(text);
        } else {
            lemma_trim_plain(text);
        }
    }
}

/// From any position on, every token that lexing makes can be read alone.
proof fn lemma_lex_from_readable(input: Seq<char>, i: int, lines: int, line_start: int)
    ensures
        forall|k: int|
            0 <= k < lex_from(input, i, lines, line_start).len() ==> token_readable(
                #[trigger] lex_from(input, i, lines, line_start)[k],
            ),
    decreases input.len() - i,
{
    if 0 <= i < input.len() {
        lemma_step_len_range(input, i);
        let n = step_len(input, i);
        let text = span(input, i, n);
        if step_rule(input, i) == Some(Lexeme::Space) {
            let nl = newlines(text);
            let ls2 = if last_newline(text) >= 0 {
                byte_len(input.subrange(0, i + last_newline(text) + 1))
            } else {
                line_start
            };
            lemma_lex_from_readable(input, i + n, lines + nl, ls2);
            assert(lex_from(input, i, lines, line_start) == lex_from(input, i + n, lines + nl, ls2));
        } else if step_kind(input, i) == TokenKind::Comment {
            lemma_lex_from_readable(input, i + n, lines, line_start);
            assert(lex_from(input, i, lines, line_start) == lex_from(input, i + n, lines, line_start));
        } else {
            lemma_lex_from_readable(input, i + n, lines, line_start);
            lemma_step_readable(input, i);
            let rest = lex_from(input, i + n, lines, line_start);
            let all = lex_from(input, i, lines, line_start);
            assert(all.len() == rest.len() + 1);
            assert(all[0].kind == step_kind(input, i));
            assert(all[0].literal == trim(text));
            assert(token_readable(all[0]));
            assert forall|k: int| 1 <= k < all.len() implies all[k] == rest[k - 1] by {}
        }
    }
}

/// Every token that lexing makes can be handed to the tree builder: it can
/// be read alone, and a declaration keyword spells its keyword.
pub proof fn lemma_lexed_readable(input: Seq<char>)
    ensures
        forall|k: int| 0 <= k < lexed(input).len() ==> token_readable(#[trigger] lexed(input)[k]),
{
    lemma_lex_from_readable(input, 0, 0, 0);
}

/// From any token on, building a tree from tokens that can all be read
/// panics only where the last token is a name.
proof fn lemma_ast_from_panics(ts: Seq<TokenView>, i: int, acc: Seq<ExprView>)
    requires
        forall|k: int| 0 <= k < ts.len() ==> token_readable(#[trigger] ts[k]),
    ensures
        ast_from(ts, i, acc) is Panics ==> ts.len() > 0 && ts.last().kind == TokenKind::Word,
    decreases ts.len() - i,
{
    if 0 <= i < ts.len() {
        let t = ts[i];
        assert(token_readable(ts[i]));
        match t.kind {
            TokenKind::Let | TokenKind::Mut | TokenKind::Def => {
                let end = chunk_end(ts, i);
                let chunk = ts.subrange(i, end);
                lemma_chunk_end_range(ts, i);
                let e1 = next_eq(chunk, 1);
                if 2 <= e1 <= 3 && e1 < chunk.len() && next_eq(chunk, e1 + 1) == e1 + 2 {
                    lemma_next_eq_range(chunk, e1 + 1);
                    assert(chunk[e1 + 1] == ts[i + e1 + 1]);
                    assert(token_readable(ts[i + e1 + 1]));
                }
                if let Some(params) = decl_params(t.literal) {
                    if !bind_panics(chunk) {
                        if let Ok(b) = bind_of(chunk, params) {
                            lemma_ast_from_panics(ts, end, acc.push(b));
                        }
                    }
                }
            },
            TokenKind::Word => {
                if i + 1 < ts.len() && ts[i + 1].kind != TokenKind::EqSign {
                    lemma_ast_from_panics(ts, i + 1, acc);
                } else if i + 1 < ts.len() {
                    let end = chunk_end(ts, i);
                    let chunk = ts.subrange(i, end);
                    lemma_chunk_end_range(ts, i);
                    lemma_chunk_end_range(ts, i + 1);
                    assert(chunk_end(ts, i) == chunk_end(ts, i + 1));
                    if next_eq(chunk, 2) == 3 {
                        assert(chunk[2] == ts[i + 2]);
                        assert(token_readable(ts[i + 2]));
                    }
                    if !rebind_panics(chunk) {
                        if let Ok(b) = rebind_of(chunk) {
                            lemma_ast_from_panics(ts, end, acc.push(b));
                        }
                    }
                }
            },
            TokenKind::Error => {},
            _ => {
                lemma_ast_from_panics(ts, i + 1, acc);
            },
        }
    }
}

/// `next_eq` finds an index at or after where it starts, inside the tokens.
proof fn lemma_next_eq_range(ts: Seq<TokenView>, from: int)
    requires
        0 <= from,
    ensures
        from <= ts.len() ==> from <= next_eq(ts, from) <= ts.len(),
    decreases ts.len() - from,
{
    if from < ts.len() && ts[from].kind != TokenKind::EqSign {
        lemma_next_eq_range(ts, from + 1);
    }
}

/// Building a tree from what lexing made panics only where the text ends
/// with a name.
pub proof fn lemma_lexed_ast_panics_only_at_a_final_name(input: Seq<char>)
    ensures
        ast_of(lexed(input)) is Panics ==> lexed(input).len() > 0 && lexed(input).last().kind
            == TokenKind::Word,
{
    lemma_lexed_readable(input);
    lemma_ast_from_panics(lexed(input), 0, Seq::empty());
}

/// What reading each node of `ts` from token `i` on gives, left to right:
/// each declaration (from its keyword up to the next end of expression)
/// read by `parse_bind`, each change of a binding (a name and `=`, up to the
/// next end of expression) read by `parse_rebind`, and an error token's
/// error, which ends the reading. Other tokens give nothing.
pub open spec fn node_results(ts: Seq<TokenView>, i: int) -> Seq<Result<ExprView, AstErrorView>>
    decreases ts.len() - i,
{
    if i < 0 || i >= ts.len() {
        Seq::empty()
    } else {
        let t = ts[i];
        match t.kind {
            TokenKind::Let | TokenKind::Mut | TokenKind::Def => {
                let end = chunk_end(ts, i);
                let params = match decl_params(t.literal) {
                    Some(p) => p,
                    None => (false, false),
                };
                proof {
                    lemma_chunk_end_range(ts, i);
                }
                seq![bind_of(ts.subrange(i, end), params)] + node_results(ts, end)
            },
            TokenKind::Word => if i + 1 < ts.len() && ts[i + 1].kind == TokenKind::EqSign {
                let end = chunk_end(ts, i);
                proof {
                    lemma_chunk_end_range(ts, i);
                }
                seq![rebind_of(ts.subrange(i, end))] + node_results(ts, end)
            } else {
                node_results(ts, i + 1)
            },
            TokenKind::Error => seq![
                Err(AstErrorView::Unknown { token: t.literal, pos: t.pos }),
            ],
            _ => node_results(ts, i + 1),
        }
    }
}

/// The tree that the results `rs` of reading nodes give after the nodes
/// `acc`: every node read, in order, or the first error.
pub open spec fn gather(acc: Seq<ExprView>, rs: Seq<Result<ExprView, AstErrorView>>) -> AstOutcome
    decreases rs.len(),
{
    if rs.len() == 0 {
        AstOutcome::Built(acc)
    } else {
        match rs[0] {
            Ok(b) => gather(acc.push(b), rs.drop_first()),
            Err(e) => AstOutcome::Refused(e),
        }
    }
}

/// From any token on, building where it does not panic gathers the nodes
/// read one by one.
proof fn lemma_ast_from_nodes(ts: Seq<TokenView>, i: int, acc: Seq<ExprView>)
    requires
        !(ast_from(ts, i, acc) is Panics),
    ensures
        ast_from(ts, i, acc) == gather(acc, node_results(ts, i)),
    decreases ts.len() - i,
{
    if 0 <= i < ts.len() {
        let t = ts[i];
        match t.kind {
            TokenKind::Let | TokenKind::Mut | TokenKind::Def => {
                let end = chunk_end(ts, i);
                lemma_chunk_end_range(ts, i);
                let rs = node_results(ts, i);
                assert(rs.drop_first() =~= node_results(ts, end));
                if let Ok(b) = rs[0] {
                    lemma_ast_from_nodes(ts, end, acc.push(b));
                }
            },
            TokenKind::Word => {
                if i + 1 < ts.len() && ts[i + 1].kind == TokenKind::EqSign {
                    let end = chunk_end(ts, i);
                    lemma_chunk_end_range(ts, i);
                    let rs = node_results(ts, i);
                    assert(rs.drop_first() =~= node_results(ts, end));
                    if let Ok(b) = rs[0] {
                        lemma_ast_from_nodes(ts, end, acc.push(b));
                    }
                } else {
                    lemma_ast_from_nodes(ts, i + 1, acc);
                }
            },
            TokenKind::Error => {},
            _ => {
                lemma_ast_from_nodes(ts, i + 1, acc);
            },
        }
    }
}

/// A tree is the sequence of its nodes as read one by one: where building
/// does not panic, it gives every declaration read by `parse_bind` and every
/// change of a binding read by `parse_rebind`, in order, or the first error
/// among them and the error tokens.
pub proof fn lemma_ast_is_its_nodes(ts: Seq<TokenView>)
    ensures
        !(ast_of(ts) is Panics) ==> ast_of(ts) == gather(Seq::empty(), node_results(ts, 0)),
{
    if !(ast_of(ts) is Panics) {
        lemma_ast_from_nodes(ts, 0, Seq::empty());
    }
}

/// `next_eq` passes over tokens that are not `=` up to where it stops.
proof fn lemma_next_eq_at(ts: Seq<TokenView>, from: int, k: int)
    requires
        0 <= from <= k <= ts.len(),
        forall|j: int| from <= j < k ==> (#[trigger] ts[j]).kind != TokenKind::EqSign,
        k == ts.len() || ts[k].kind == TokenKind::EqSign,
    ensures
        next_eq(ts, from) == k,
    decreases k - from,
{
    if from < k {
        lemma_next_eq_at(ts, from + 1, k);
    }
}

/// A declaration with one `=` after its name binds that name (the token
/// after the keyword) with the kind written between the name and the `=`
/// and the value written after the `=`; where reading the kind or the value
/// fails, so does the declaration.
pub proof fn lemma_bind_with_one_eq(ts: Seq<TokenView>, k: int, params: (bool, bool))
    requires
        2 <= k < ts.len(),
        ts[k].kind == TokenKind::EqSign,
        forall|j: int| 1 <= j < ts.len() && j != k ==> (#[trigger] ts[j]).kind != TokenKind::EqSign,
    ensures
        bind_of(ts, params) == match decl_kind_of(ts.subrange(2, k), ts[0].pos) {
            Err(e) => Err(e),
            Ok(kind) => match val_of(ts.subrange(k + 1, ts.len() as int), ts[0].pos) {
                Ok(v) => Ok(
                    ExprView::Bind {
                        id: ts[1].literal,
                        kind: (bind_kind_of(params), kind),
                        val: Box::new(v),
                    },
                ),
                Err(e) => Err(e),
            },
        },
{
    lemma_next_eq_at(ts, 1, k);
    lemma_next_eq_at(ts, k + 1, ts.len() as int);
    assert(ts.subrange(1, k).drop_first() =~= ts.subrange(2, k));
    assert(ts.subrange(1, k)[0] == ts[1]);
}


/// `chunk_end` passes over tokens that are not an end of expression up to
/// where it stops.
proof fn lemma_chunk_end_at(ts: Seq<TokenView>, from: int, k: int)
    requires
        0 <= from <= k <= ts.len(),
        forall|j: int| from <= j < k ==> (#[trigger] ts[j]).kind != TokenKind::ExprEnd,
        k == ts.len() || ts[k].kind == TokenKind::ExprEnd,
    ensures
        chunk_end(ts, from) == k,
    decreases k - from,
{
    if from < k {
        lemma_chunk_end_at(ts, from + 1, k);
    }
}

/// After tokens `p`, the end of expression that `chunk_end` finds is the
/// one it finds in the tokens that follow, moved by the length of `p`.
proof fn lemma_chunk_end_shift(p: Seq<TokenView>, r: Seq<TokenView>, j: int)
    requires
        0 <= j,
    ensures
        chunk_end(p + r, p.len() + j) == p.len() + chunk_end(r, j),
    decreases r.len() - j,
{
    if j < r.len() {
        assert((p + r)[p.len() + j] == r[j]);
        if r[j].kind != TokenKind::ExprEnd {
            lemma_chunk_end_shift(p, r, j + 1);
        }
    }
}

/// The nodes `acc` built so far, put before the nodes of `o` where it is a
/// tree.
spec fn after(acc: Seq<ExprView>, o: AstOutcome) -> AstOutcome {
    match o {
        AstOutcome::Built(xs) => AstOutcome::Built(acc + xs),
        _ => o,
    }
}

/// Building from token `i` after the nodes `acc` gives `acc` followed by
/// what building from there gives with no nodes yet.
proof fn lemma_ast_from_acc(ts: Seq<TokenView>, i: int, acc: Seq<ExprView>)
    ensures
        ast_from(ts, i, acc) == after(acc, ast_from(ts, i, Seq::empty())),
    decreases ts.len() - i,
{
    if i < 0 || i >= ts.len() {
        assert(acc + Seq::<ExprView>::empty() =~= acc);
    } else {
        let t = ts[i];
        let end = chunk_end(ts, i);
        let chunk = ts.subrange(i, end);
        lemma_chunk_end_range(ts, i);
        match t.kind {
            TokenKind::Let | TokenKind::Mut | TokenKind::Def => {
                if let Some(params) = decl_params(t.literal) {
                    if !bind_panics(chunk) {
                        if let Ok(b) = bind_of(chunk, params) {
                            lemma_ast_from_acc(ts, end, acc.push(b));
                            lemma_ast_from_acc(ts, end, Seq::<ExprView>::empty().push(b));
                            if let AstOutcome::Built(xs) = ast_from(ts, end, Seq::empty()) {
                                assert(acc.push(b) + xs =~= acc + (Seq::<ExprView>::empty().push(b)
                                    + xs));
                            }
                        }
                    }
                }
            },
            TokenKind::Word => {
                if i + 1 < ts.len() && ts[i + 1].kind == TokenKind::EqSign {
                    if !rebind_panics(chunk) {
                        if let Ok(b) = rebind_of(chunk) {
                            lemma_ast_from_acc(ts, end, acc.push(b));
                            lemma_ast_from_acc(ts, end, Seq::<ExprView>::empty().push(b));
                            if let AstOutcome::Built(xs) = ast_from(ts, end, Seq::empty()) {
                                assert(acc.push(b) + xs =~= acc + (Seq::<ExprView>::empty().push(b)
                                    + xs));
                            }
                        }
                    }
                } else if i + 1 < ts.len() {
                    lemma_ast_from_acc(ts, i + 1, acc);
                    lemma_ast_from_acc(ts, i + 1, Seq::empty());
                }
            },
            TokenKind::Error => {},
            _ => {
                lemma_ast_from_acc(ts, i + 1, acc);
                lemma_ast_from_acc(ts, i + 1, Seq::empty());
            },
        }
    }
}

/// Building from a token after tokens `p` goes as building from that token
/// of the tokens that follow `p`.
proof fn lemma_ast_from_shift(p: Seq<TokenView>, r: Seq<TokenView>, j: int, acc: Seq<ExprView>)
    requires
        0 <= j,
    ensures
        ast_from(p + r, p.len() + j, acc) == ast_from(r, j, acc),
    decreases r.len() - j,
{
    if j < r.len() {
        let ts = p + r;
        let i = p.len() + j;
        assert(ts[i] == r[j]);
        let t = r[j];
        let end = chunk_end(r, j);
        lemma_chunk_end_range(r, j);
        lemma_chunk_end_shift(p, r, j);
        assert(ts.subrange(i, p.len() + end) =~= r.subrange(j, end));
        let chunk = r.subrange(j, end);
        match t.kind {
            TokenKind::Let | TokenKind::Mut | TokenKind::Def => {
                if let Some(params) = decl_params(t.literal) {
                    if !bind_panics(chunk) {
                        if let Ok(b) = bind_of(chunk, params) {
                            lemma_ast_from_shift(p, r, end, acc.push(b));
                        }
                    }
                }
            },
            TokenKind::Word => {
                if j + 1 < r.len() {
                    assert(ts[i + 1] == r[j + 1]);
                    if r[j + 1].kind == TokenKind::EqSign {
                        if !rebind_panics(chunk) {
                            if let Ok(b) = rebind_of(chunk) {
                                lemma_ast_from_shift(p, r, end, acc.push(b));
                            }
                        }
                    } else {
                        lemma_ast_from_shift(p, r, j + 1, acc);
                    }
                }
            },
            TokenKind::Error => {},
            _ => {
                lemma_ast_from_shift(p, r, j + 1, acc);
            },
        }
    }
}

/// The tree `o` with the node `b` put first, where `o` is a tree; a refusal
/// or a panic stays as it is.
pub open spec fn with_first(b: ExprView, o: AstOutcome) -> AstOutcome {
    match o {
        AstOutcome::Built(xs) => AstOutcome::Built(seq![b] + xs),
        _ => o,
    }
}

/// The tokens `s` are a statement that reads to the node `b`: a
/// declaration (`let`, `mut` or `def` first) that `parse_bind` reads to
/// `b`, or a change of a binding (a name, then `=`) that `parse_rebind`
/// reads to `b`.
pub open spec fn statement_reads(s: Seq<TokenView>, b: ExprView) -> bool {
    ||| {
        &&& s.len() >= 1
        &&& (s[0].kind == TokenKind::Let || s[0].kind == TokenKind::Mut || s[0].kind
            == TokenKind::Def)
        &&& decl_params(s[0].literal) matches Some(params)
        &&& !bind_panics(s)
        &&& bind_of(s, params) == Ok::<ExprView, AstErrorView>(b)
    }
    ||| {
        &&& s.len() >= 2
        &&& s[0].kind == TokenKind::Word
        &&& s[1].kind == TokenKind::EqSign
        &&& !rebind_panics(s)
        &&& rebind_of(s) == Ok::<ExprView, AstErrorView>(b)
    }
}

/// Statements are built one by one, and building goes on right after each
/// statement's `.`: the tree of a statement, its `.` and any tokens after
/// them is the statement's node followed by the tree of those tokens. So a
/// program of statements `s1. s2. ... sk.` gives exactly `k` nodes, the
/// `j`-th being what `sj` reads to.
pub proof fn lemma_statement_then_rest(
    s: Seq<TokenView>,
    dot: TokenView,
    rest: Seq<TokenView>,
    b: ExprView,
)
    requires
        statement_reads(s, b),
        forall|j: int| 0 <= j < s.len() ==> (#[trigger] s[j]).kind != TokenKind::ExprEnd,
        dot.kind == TokenKind::ExprEnd,
    ensures
        ast_of(s + seq![dot] + rest) == with_first(b, ast_of(rest)),
{
    let p = s + seq![dot];
    let ts = p + rest;
    let n = s.len() as int;
    assert forall|j: int| 0 <= j < n implies #[trigger] ts[j] == s[j] by {}
    assert(ts[n] == dot);
    lemma_chunk_end_at(ts, 0, n);
    assert(ts.subrange(0, n) =~= s);
    let one = Seq::<ExprView>::empty().push(b);
    assert(ast_from(ts, 0, Seq::empty()) == ast_from(ts, n, one));
    assert(ast_from(ts, n, one) == ast_from(ts, n + 1, one));
    lemma_ast_from_shift(p, rest, 0, one);
    lemma_ast_from_acc(rest, 0, one);
    if let AstOutcome::Built(xs) = ast_of(rest) {
        assert(one + xs =~= seq![b] + xs);
    }
}

} // verus!
