//! Parsing values: literals, names and the simple expressions built from
//! them, and the kinds written after a binding's name.
use vstd::prelude::*;
use vstd::string::StrSliceExecFns;
use ecow::{EcoString, EcoVec};
use crate::def::{CodePos, Expr, ExprView, KindView, Token, TokenKind, TokenView, VarKind, expr_wf, kind_wf};
use crate::eco::{
    eco_chars, eco_string_as_str, eco_string_from, eco_string_new, eco_string_push, eco_string_replace, replace_char, token_views,
    token_vec_as_slice,
};
use crate::lexer::byte_len;
use crate::literals::{parsed_isize, parse_isize, is_float_text, float_text};
use crate::text::{byte_slice, byte_range, chars_of, lemma_byte_len_encoding};
use crate::unescape::{unescaped, unescape};
use crate::aster::helper::errors::{AstError, AstErrorView, Construct, malformed};

verus! {

/// What `unbun_str` gives: the text between the quotes of a string literal,
/// or between the double angle brackets of a raw string literal, cut at
/// byte offsets; a token of another kind is refused.
pub open spec fn unbun(kind: TokenKind, s: Seq<char>, pos: CodePos) -> Result<
    Seq<char>,
    AstErrorView,
> {
    match kind {
        TokenKind::Str => match byte_slice(s, 1, byte_len(s) - 1) {
            Some(t) => Ok(t),
            None => Err(malformed(Construct::StringLiteral, pos)),
        },
        TokenKind::RawStr => match byte_slice(s, 2, byte_len(s) - 2) {
            Some(t) => Ok(t),
            None => Err(malformed(Construct::RawStringLiteral, pos)),
        },
        _ => Err(AstErrorView::NotA { kind, literal: s }),
    }
}

/// Taking the quotes off a string literal gives back what stood between
/// them, and taking the double angle brackets off a raw string literal
/// likewise.
#[verifier::rlimit(40)]
pub proof fn lemma_unbun_takes_off_quotes(s: Seq<char>, pos: CodePos)
    ensures
        unbun(TokenKind::Str, seq!['"'] + s + seq!['"'], pos) == Ok::<Seq<char>, AstErrorView>(s),
        unbun(TokenKind::RawStr, seq!['<', '<'] + s + seq!['>', '>'], pos) == Ok::<
            Seq<char>,
            AstErrorView,
        >(s),
{
    let q = seq!['"'] + s + seq!['"'];
    assert forall|j: int| 0 <= j < 1 implies (#[trigger] q[j] as u32) < 0x80 by {}
    assert forall|j: int| q.len() - 1 <= j < q.len() implies (#[trigger] q[j] as u32) < 0x80 by {}
    crate::text::lemma_byte_slice_inner(q, 1, 1);
    assert(q.subrange(1, q.len() - 1) =~= s);
    let r = seq!['<', '<'] + s + seq!['>', '>'];
    assert forall|j: int| 0 <= j < 2 implies (#[trigger] r[j] as u32) < 0x80 by {}
    assert forall|j: int| r.len() - 2 <= j < r.len() implies (#[trigger] r[j] as u32) < 0x80 by {}
    crate::text::lemma_byte_slice_inner(r, 2, 2);
    assert(r.subrange(2, r.len() - 2) =~= s);
}

/// Takes the quotes off a string literal, or the double angle brackets off
/// a raw string literal.
pub fn unbun_str(kind: TokenKind, string: &EcoString, pos: CodePos) -> (r: Result<
    EcoString,
    AstError,
>)
    requires
        kind == TokenKind::Str ==> byte_len(eco_chars(*string)) >= 1,
        kind == TokenKind::RawStr ==> byte_len(eco_chars(*string)) >= 2,
    ensures
        match r {
            Ok(t) => unbun(kind, eco_chars(*string), pos) == Ok::<Seq<char>, AstErrorView>(
                eco_chars(t),
            ),
            Err(e) => unbun(kind, eco_chars(*string), pos) == Err::<Seq<char>, AstErrorView>(e@),
        },
{
    let cut: usize = match kind {
        TokenKind::Str => 1,
        TokenKind::RawStr => 2,
        _ => {
            return Err(AstError::NotA { kind, literal: string.clone() });
        },
    };
    let text = eco_string_as_str(string);
    let chars = chars_of(text);
    proof {
        lemma_byte_len_encoding(text@);
    }
    let end = text.len() - cut;
    match byte_range(chars.as_slice(), cut, end) {
        Some((ka, kb)) => Ok(eco_string_from(text.substring_char(ka, kb))),
        None => {
            if cut == 1 {
                Err(AstError::Malformed { what: Construct::StringLiteral, pos })
            } else {
                Err(AstError::Malformed { what: Construct::RawStringLiteral, pos })
            }
        },
    }
}

/// The kind that a type written as the tokens `toks` names: one of the
/// primitive names, or `Unknown` for any other single name and for no
/// token at all; a longer type is not implemented yet, reported at the
/// first token where it is a bracket and at `errpos` otherwise.
pub open spec fn kind_of(toks: Seq<TokenView>, errpos: CodePos) -> Result<KindView, AstErrorView> {
    if toks.len() == 0 {
        Ok(KindView::Unknown)
    } else if toks.len() == 1 {
        let w = toks[0].literal;
        Ok(
            if w == seq!['n', 'u', 'm'] {
                KindView::Num
            } else if w == seq!['d', 'o', 't'] {
                KindView::Dot
            } else if w == seq!['c', 'h', 'r'] {
                KindView::Chr
            } else if w == seq!['s', 't', 'r'] {
                KindView::Str
            } else if w == seq!['b', 'l', 'n'] {
                KindView::Bln
            } else {
                KindView::Unknown
            },
        )
    } else if toks[0].kind == TokenKind::LBracket || toks[0].kind == TokenKind::Rbracket {
        Err(AstErrorView::Unimplemented { pos: Some(toks[0].pos) })
    } else {
        Err(AstErrorView::Unimplemented { pos: Some(errpos) })
    }
}

/// Whether the characters `w` spell the word `lit`.
pub(crate) fn spelled(w: &[char], lit: &[char]) -> (r: bool)
    ensures
        r == (w@ == lit@),
{
    if w.len() != lit.len() {
        return false;
    }
    let mut j: usize = 0;
    while j < w.len()
        invariant
            w@.len() == lit@.len(),
            j <= w@.len(),
            forall|k: int| 0 <= k < j ==> w@[k] == lit@[k],
        decreases w@.len() - j,
    {
        if w[j] != lit[j] {
            return false;
        }
        j += 1;
    }
    proof {
        assert(w@ =~= lit@);
    }
    true
}

/// The primitive kind that a single word names, or `Unknown`.
fn primitive_kind(w: &[char]) -> (r: VarKind)
    ensures
        r@ == (if w@ == seq!['n', 'u', 'm'] {
            KindView::Num
        } else if w@ == seq!['d', 'o', 't'] {
            KindView::Dot
        } else if w@ == seq!['c', 'h', 'r'] {
            KindView::Chr
        } else if w@ == seq!['s', 't', 'r'] {
            KindView::Str
        } else if w@ == seq!['b', 'l', 'n'] {
            KindView::Bln
        } else {
            KindView::Unknown
        }),
{
    let num: [char; 3] = ['n', 'u', 'm'];
    let dot: [char; 3] = ['d', 'o', 't'];
    let chr: [char; 3] = ['c', 'h', 'r'];
    let st: [char; 3] = ['s', 't', 'r'];
    let bln: [char; 3] = ['b', 'l', 'n'];
    proof {
        assert(num@ =~= seq!['n', 'u', 'm']);
        assert(dot@ =~= seq!['d', 'o', 't']);
        assert(chr@ =~= seq!['c', 'h', 'r']);
        assert(st@ =~= seq!['s', 't', 'r']);
        assert(bln@ =~= seq!['b', 'l', 'n']);
    }
    if spelled(w, &num) {
        VarKind::Num
    } else if spelled(w, &dot) {
        VarKind::Dot
    } else if spelled(w, &chr) {
        VarKind::Chr
    } else if spelled(w, &st) {
        VarKind::Str
    } else if spelled(w, &bln) {
        VarKind::Bln
    } else {
        VarKind::Unknown
    }
}

/// Reads the kind written as the tokens `toks`.
pub fn to_varkind(toks: EcoVec<Token>, errpos: CodePos) -> (r: Result<VarKind, AstError>)
    ensures
        r matches Ok(k) ==> kind_wf(k@),
        match r {
            Ok(k) => kind_of(token_views(toks), errpos) == Ok::<KindView, AstErrorView>(k@),
            Err(e) => kind_of(token_views(toks), errpos) == Err::<KindView, AstErrorView>(e@),
        },
{
    let ts = token_vec_as_slice(&toks);
    proof {
        assert(ts@.len() == token_views(toks).len());
    }
    if ts.len() < 2 {
        if ts.len() == 0 {
            return Ok(VarKind::Unknown);
        }
        proof {
            assert(ts@[0]@ == token_views(toks)[0]);
        }
        let w = chars_of(eco_string_as_str(&ts[0].literal));
        return Ok(primitive_kind(w.as_slice()));
    }
    proof {
        assert(ts@[0]@ == token_views(toks)[0]);
    }
    match ts[0].kind {
        TokenKind::LBracket | TokenKind::Rbracket => Err(
            AstError::Unimplemented { pos: Some(ts[0].pos) },
        ),
        _ => Err(AstError::Unimplemented { pos: Some(errpos) }),
    }
}

/// The text of a raw string literal's content: kept as written, but for
/// its one escape, a backslash before `>`, which stands for `>`.
pub open spec fn raw_text(s: Seq<char>) -> Seq<char>
    decreases s.len(),
{
    if s.len() == 0 {
        s
    } else if s.len() >= 2 && s[0] == '\\' && s[1] == '>' {
        seq!['>'] + raw_text(s.subrange(2, s.len() as int))
    } else {
        seq![s[0]] + raw_text(s.subrange(1, s.len() as int))
    }
}

/// Resolves the escapes of a raw string literal's content.
pub fn raw_text_of(inner: &EcoString) -> (r: EcoString)
    ensures
        eco_chars(r) == raw_text(eco_chars(*inner)),
{
    let cs = chars_of(eco_string_as_str(inner));
    let ghost s = cs@;
    let mut r = eco_string_new();
    let mut k: usize = 0;
    proof {
        assert(s.subrange(0, s.len() as int) =~= s);
    }
    while k < cs.len()
        invariant
            s == cs@,
            k <= s.len(),
            eco_chars(r) + raw_text(s.subrange(k as int, s.len() as int)) == raw_text(s),
        decreases s.len() - k,
    {
        let ghost rest = s.subrange(k as int, s.len() as int);
        if k + 1 < cs.len() && cs[k] == '\\' && cs[k + 1] == '>' {
            proof {
                assert(rest[0] == '\\' && rest[1] == '>');
                assert(rest.subrange(2, rest.len() as int) =~= s.subrange(k + 2, s.len() as int));
                assert(eco_chars(r).push('>') + raw_text(s.subrange(k + 2, s.len() as int))
                    =~= eco_chars(r) + raw_text(rest));
            }
            eco_string_push(&mut r, '>');
            k += 2;
        } else {
            let c = cs[k];
            proof {
                assert(rest[0] == c);
                assert(rest.subrange(1, rest.len() as int) =~= s.subrange(k + 1, s.len() as int));
                assert(eco_chars(r).push(c) + raw_text(s.subrange(k + 1, s.len() as int))
                    =~= eco_chars(r) + raw_text(rest));
            }
            eco_string_push(&mut r, c);
            k += 1;
        }
    }
    proof {
        assert(s.subrange(k as int, s.len() as int) =~= Seq::<char>::empty());
        assert(eco_chars(r) + Seq::<char>::empty() =~= eco_chars(r));
    }
    r
}

/// What a character literal gives once its inner text was unescaped (to
/// `u`, where that succeeded): the first character, or `\0` where there is
/// none; a malformed character literal where unescaping failed.
pub open spec fn chr_result(u: Option<Seq<char>>, pos: CodePos) -> Result<ExprView, AstErrorView> {
    match u {
        Some(t) => Ok(ExprView::Chr(if t.len() > 0 { t[0] } else { '\0' })),
        None => Err(malformed(Construct::ChrLiteral, pos)),
    }
}

/// Makes the value of a character literal from its unescaped inner text
/// (`None` where unescaping failed).
pub fn chr_of(unescaped: Option<String>, pos: CodePos) -> (r: Result<Expr, AstError>)
    ensures
        r matches Ok(e) ==> expr_wf(e@),
        match r {
            Ok(e) => chr_result(unescaped.deep_view(), pos) == Ok::<ExprView, AstErrorView>(e@),
            Err(e) => chr_result(unescaped.deep_view(), pos) == Err::<ExprView, AstErrorView>(e@),
        },
{
    match unescaped {
        Some(t) => {
            let text = t.as_str();
            if text.unicode_len() > 0 {
                Ok(Expr::Chr(text.get_char(0)))
            } else {
                Ok(Expr::Chr('\0'))
            }
        },
        None => Err(AstError::Malformed { what: Construct::ChrLiteral, pos }),
    }
}

/// What a string literal gives once its inner text was unescaped (to `u`,
/// where that succeeded): that text; where unescaping failed, the literal
/// is reported as not being of its kind.
pub open spec fn str_result(u: Option<Seq<char>>, kind: TokenKind, literal: Seq<char>) -> Result<
    ExprView,
    AstErrorView,
> {
    match u {
        Some(t) => Ok(ExprView::Str(t)),
        None => Err(AstErrorView::NotA { kind, literal }),
    }
}

/// Makes the value of a string literal of kind `kind` and text `literal`
/// from its unescaped inner text (`None` where unescaping failed).
pub fn str_of(unescaped: Option<String>, kind: TokenKind, literal: &EcoString) -> (r: Result<
    Expr,
    AstError,
>)
    ensures
        r matches Ok(e) ==> expr_wf(e@),
        match r {
            Ok(e) => str_result(unescaped.deep_view(), kind, eco_chars(*literal)) == Ok::<
                ExprView,
                AstErrorView,
            >(e@),
            Err(e) => str_result(unescaped.deep_view(), kind, eco_chars(*literal)) == Err::<
                ExprView,
                AstErrorView,
            >(e@),
        },
{
    match unescaped {
        Some(t) => Ok(Expr::Str(eco_string_from(t.as_str()))),
        None => Err(AstError::NotA { kind, literal: literal.clone() }),
    }
}

/// What a decimal literal gives once its `d` became `.` (giving `d`): that
/// text where it is in Rust's decimal syntax, a malformed decimal literal
/// otherwise.
pub open spec fn dot_result(d: Seq<char>, pos: CodePos) -> Result<ExprView, AstErrorView> {
    if is_float_text(d) {
        Ok(ExprView::Dot(d))
    } else {
        Err(malformed(Construct::DotLiteral, pos))
    }
}

/// Makes the value of a decimal literal from its text with `.` in place of
/// `d`.
pub fn dot_of(text: EcoString, pos: CodePos) -> (r: Result<Expr, AstError>)
    ensures
        r matches Ok(e) ==> expr_wf(e@),
        match r {
            Ok(e) => dot_result(eco_chars(text), pos) == Ok::<ExprView, AstErrorView>(e@),
            Err(e) => dot_result(eco_chars(text), pos) == Err::<ExprView, AstErrorView>(e@),
        },
{
    let cs = chars_of(eco_string_as_str(&text));
    if float_text(cs.as_slice()) {
        Ok(Expr::Dot(text))
    } else {
        Err(AstError::Malformed { what: Construct::DotLiteral, pos })
    }
}

/// What the inner text of a character literal is taken to be: the text
/// between its first and last byte, or `\u0000` where that cut falls inside
/// a character.
pub open spec fn chr_inner(s: Seq<char>) -> Seq<char> {
    match byte_slice(s, 1, byte_len(s) - 1) {
        Some(t) => t,
        None => seq!['\\', 'u', '0', '0', '0', '0'],
    }
}

/// Whether a token can be read alone: a character or string literal has
/// some text, a raw string literal at least two bytes of it.
pub open spec fn literal_ok(t: TokenView) -> bool {
    match t.kind {
        TokenKind::Chr | TokenKind::Str => t.literal.len() >= 1,
        TokenKind::RawStr => byte_len(t.literal) >= 2,
        _ => true,
    }
}

/// The spelling of a boolean literal, if `w` is one.
pub open spec fn bln_value(w: Seq<char>) -> Option<bool> {
    if w == seq!['y', 'e', 's'] || w == seq!['t', 'r', 'u', 'e'] {
        Some(true)
    } else if w == seq!['n', 'o'] || w == seq!['f', 'a', 'l', 's', 'e'] {
        Some(false)
    } else {
        None
    }
}

/// What a token alone parses to; `errpos` is where a value that cannot be
/// one token is reported.
pub open spec fn single_val(t: TokenView, errpos: CodePos) -> Result<ExprView, AstErrorView> {
    match t.kind {
        TokenKind::Word => Ok(ExprView::Name(t.literal)),
        TokenKind::Num => match parsed_isize(t.literal) {
            Some(v) => Ok(ExprView::Num(v)),
            None => Err(malformed(Construct::NumLiteral, t.pos)),
        },
        TokenKind::Dot => dot_result(replace_char(t.literal, 'd', '.'), t.pos),
        TokenKind::Bln => match bln_value(t.literal) {
            Some(b) => Ok(ExprView::Bln(b)),
            None => Err(malformed(Construct::BlnLiteral, t.pos)),
        },
        TokenKind::Chr => chr_result(unescaped(chr_inner(t.literal)), t.pos),
        TokenKind::Str => match unbun(t.kind, t.literal, t.pos) {
            Ok(inner) => str_result(unescaped(inner), t.kind, t.literal),
            Err(e) => Err(e),
        },
        TokenKind::RawStr => match unbun(t.kind, t.literal, t.pos) {
            Ok(inner) => Ok(ExprView::Str(raw_text(inner))),
            Err(e) => Err(e),
        },
        TokenKind::RParen => Err(malformed(Construct::UnopenedExpression, errpos)),
        _ => Err(malformed(Construct::UnimplementedExpression, errpos)),
    }
}

/// A string literal with no backslash between its quotes.
pub open spec fn plain_str_literal(lit: Seq<char>) -> bool {
    &&& lit.len() >= 2
    &&& lit[0] == '"'
    &&& lit.last() == '"'
    &&& !lit.subrange(1, lit.len() - 1).contains('\\')
}

/// A character literal of one character, not a backslash, between its
/// quotes.
pub open spec fn plain_chr_literal(lit: Seq<char>) -> bool {
    lit.len() == 3 && lit[0] == '\'' && lit[2] == '\'' && lit[1] != '\\'
}

/// Calls the unescaper, keeping its text where it succeeds.
fn unescape_to_option(s: &str) -> (r: Option<String>)
    ensures
        r.deep_view() == unescaped(s@),
        !s@.contains('\\') ==> r.deep_view() == Some(s@),
{
    match unescape(s) {
        Ok(t) => Some(t),
        Err(_) => None,
    }
}

/// Parses one token alone.
fn single(t: &Token, errpos: CodePos) -> (r: Result<Expr, AstError>)
    requires
        literal_ok(t@),
    ensures
        r matches Ok(e) ==> expr_wf(e@),
        match r {
            Ok(e) => single_val(t@, errpos) == Ok::<ExprView, AstErrorView>(e@),
            Err(e) => single_val(t@, errpos) == Err::<ExprView, AstErrorView>(e@),
        },
        t@.kind == TokenKind::Str && plain_str_literal(t@.literal) ==> r is Ok && r->Ok_0@
            == ExprView::Str(t@.literal.subrange(1, t@.literal.len() - 1)),
        t@.kind == TokenKind::Chr && plain_chr_literal(t@.literal) ==> r is Ok && r->Ok_0@
            == ExprView::Chr(t@.literal[1]),
{
    match t.kind {
        TokenKind::Word => Ok(Expr::Name(t.literal.clone())),
        TokenKind::Num => {
            let cs = chars_of(eco_string_as_str(&t.literal));
            match parse_isize(cs.as_slice()) {
                Some(v) => Ok(Expr::Num(v)),
                None => Err(AstError::Malformed { what: Construct::NumLiteral, pos: t.pos }),
            }
        },
        TokenKind::Dot => {
            proof {
                reveal_strlit("d");
                reveal_strlit(".");
            }
            let d = eco_string_replace(&t.literal, "d", ".");
            dot_of(d, t.pos)
        },
        TokenKind::Bln => {
            let cs = chars_of(eco_string_as_str(&t.literal));
            let yes: [char; 3] = ['y', 'e', 's'];
            let tru: [char; 4] = ['t', 'r', 'u', 'e'];
            let no: [char; 2] = ['n', 'o'];
            let fals: [char; 5] = ['f', 'a', 'l', 's', 'e'];
            proof {
                assert(yes@ =~= seq!['y', 'e', 's']);
                assert(tru@ =~= seq!['t', 'r', 'u', 'e']);
                assert(no@ =~= seq!['n', 'o']);
                assert(fals@ =~= seq!['f', 'a', 'l', 's', 'e']);
            }
            if spelled(cs.as_slice(), &yes) || spelled(cs.as_slice(), &tru) {
                Ok(Expr::Bln(true))
            } else if spelled(cs.as_slice(), &no) || spelled(cs.as_slice(), &fals) {
                Ok(Expr::Bln(false))
            } else {
                Err(AstError::Malformed { what: Construct::BlnLiteral, pos: t.pos })
            }
        },
        TokenKind::Chr => {
            let text = eco_string_as_str(&t.literal);
            let cs = chars_of(text);
            proof {
                lemma_byte_len_encoding(text@);
                reveal_strlit("\\u0000");
            }
            let inner: &str = match byte_range(cs.as_slice(), 1, text.len() - 1) {
                Some((a, b)) => text.substring_char(a, b),
                None => "\\u0000",
            };
            assert(inner@ == chr_inner(t@.literal));
            proof {
                if plain_chr_literal(t@.literal) {
                    let lit = t@.literal;
                    assert forall|j: int| 0 <= j < 1 implies (#[trigger] lit[j] as u32) < 0x80 by {}
                    assert forall|j: int| lit.len() - 1 <= j < lit.len() implies (#[trigger] lit[j]
                        as u32) < 0x80 by {}
                    crate::text::lemma_byte_slice_inner(lit, 1, 1);
                    assert(lit.subrange(1, 2) =~= seq![lit[1]]);
                    assert(!inner@.contains('\\')) by {
                        if inner@.contains('\\') {
                            let j = choose|j: int| 0 <= j < inner@.len() && inner@[j] == '\\';
                            assert(inner@[j] == lit[1]);
                        }
                    }
                }
            }
            let u = unescape_to_option(inner);
            assert(u.deep_view() == unescaped(chr_inner(t@.literal)));
            chr_of(u, t.pos)
        },
        TokenKind::Str | TokenKind::RawStr => {
            proof {
                if t.kind == TokenKind::Str {
                    lemma_byte_len_encoding(t@.literal);
                    crate::text::lemma_byte_len_nonneg(t@.literal.drop_first());
                    assert(t@.literal =~= seq![t@.literal[0]] + t@.literal.drop_first());
                    crate::text::lemma_byte_len_concat(seq![t@.literal[0]], t@.literal.drop_first());
                    assert(seq![t@.literal[0]].drop_last() =~= Seq::<char>::empty());
                    assert(byte_len(Seq::<char>::empty()) == 0);
                    assert(seq![t@.literal[0]].last() == t@.literal[0]);
                    assert(byte_len(seq![t@.literal[0]]) >= 1);
                }
            }
            proof {
                if t.kind == TokenKind::Str && plain_str_literal(t@.literal) {
                    let lit = t@.literal;
                    let mid = lit.subrange(1, lit.len() - 1);
                    assert(lit =~= seq!['"'] + mid + seq!['"']);
                    lemma_unbun_takes_off_quotes(mid, t.pos);
                }
            }
            match unbun_str(t.kind, &t.literal, t.pos) {
                Ok(inner) => if t.kind == TokenKind::Str {
                    str_of(unescape_to_option(eco_string_as_str(&inner)), t.kind, &t.literal)
                } else {
                    Ok(Expr::Str(raw_text_of(&inner)))
                },
                Err(e) => Err(e),
            }
        },
        TokenKind::RParen => Err(
            AstError::Malformed { what: Construct::UnopenedExpression, pos: errpos },
        ),
        _ => Err(AstError::Malformed { what: Construct::UnimplementedExpression, pos: errpos }),
    }
}

/// The operator of an arithmetic operation that a token stands for.
pub open spec fn op_of(k: TokenKind) -> Option<char> {
    match k {
        TokenKind::Plus => Some('+'),
        TokenKind::Minus => Some('-'),
        TokenKind::Star => Some('*'),
        TokenKind::Slash => Some('/'),
        TokenKind::Caret => Some('^'),
        TokenKind::Percent => Some('%'),
        _ => None,
    }
}

/// Computes `op_of`.
fn operator_of(k: TokenKind) -> (r: Option<char>)
    ensures
        r == op_of(k),
{
    match k {
        TokenKind::Plus => Some('+'),
        TokenKind::Minus => Some('-'),
        TokenKind::Star => Some('*'),
        TokenKind::Slash => Some('/'),
        TokenKind::Caret => Some('^'),
        TokenKind::Percent => Some('%'),
        _ => None,
    }
}

/// An operation waiting for its right-hand value: the value on its left,
/// its operator and where the operator stands.
pub open spec fn pending_view(p: Option<(Expr, char, CodePos)>) -> Option<(ExprView, char, CodePos)> {
    match p {
        Some(x) => Some((x.0@, x.1, x.2)),
        None => None,
    }
}

/// The operation that the waiting operation `p` makes with `right`.
pub open spec fn apply_op(p: (ExprView, char, CodePos), right: ExprView) -> ExprView {
    ExprView::MathOp { left: Box::new(p.0), right: Box::new(right), op: p.1 }
}

/// The operator of a waiting operation.
fn operator_char(pending: &(Expr, char, CodePos)) -> (c: char)
    ensures
        c == pending.1,
{
    pending.1
}

/// Computes `apply_op` on expressions.
fn apply_pending(p: (Expr, char, CodePos), right: Expr) -> (r: Expr)
    ensures
        r@ == apply_op((p.0@, p.1, p.2), right@),
        expr_wf(p.0@) && expr_wf(right@) ==> expr_wf(r@),
{
    let c = operator_char(&p);
    Expr::MathOp { left: Box::new(p.0), right: Box::new(right), op: c }
}

/// How a value of several tokens reads from token `i` on, where `res` is
/// the value so far, `op` an operation waiting for its right-hand value,
/// `depth` the count of opening parentheses met, `stack` the values set
/// aside (at each opening parenthesis, the value so far; each integer that
/// no operation takes), and `saved` the waiting operations set aside at the
/// opening parentheses.
///
/// A name becomes the value so far; an integer is set aside. An operator
/// takes the value before it (the value so far, else the last value set
/// aside) as its left-hand side, and the next name or integer as its
/// right-hand side, making an operation, which becomes the value so far;
/// there is no precedence among operators. An opening parenthesis sets the
/// value so far and the waiting operation aside and starts afresh; a
/// closing one, where some were opened, drops the last value set aside, and
/// where an operation waited before the parenthesis, makes it with the value
/// inside. An end of expression outside parentheses ends the value. At the
/// end, an empty value is the result; otherwise the last value set aside,
/// or, where none is, the value so far.
pub open spec fn multi_val(
    ts: Seq<TokenView>,
    errpos: CodePos,
    i: int,
    res: ExprView,
    op: Option<(ExprView, char, CodePos)>,
    depth: int,
    stack: Seq<ExprView>,
    saved: Seq<Option<(ExprView, char, CodePos)>>,
) -> Result<ExprView, AstErrorView>
    decreases ts.len() - i,
{
    if i < 0 || i >= ts.len() {
        match op {
            Some(p) => Err(malformed(Construct::UndelimitedExpression, p.2)),
            None => if res is Empty {
                Ok(ExprView::Empty)
            } else if stack.len() > 0 {
                Ok(stack.last())
            } else {
                Ok(res)
            },
        }
    } else {
        let t = ts[i];
        match t.kind {
            TokenKind::LParen => multi_val(
                ts,
                errpos,
                i + 1,
                ExprView::Empty,
                None,
                depth + 1,
                stack.push(res),
                saved.push(op),
            ),
            TokenKind::RParen => if depth < 1 {
                Err(malformed(Construct::ParenthesizedExpression, t.pos))
            } else if op is Some {
                Err(malformed(Construct::UndelimitedExpression, op->Some_0.2))
            } else if stack.len() == 0 {
                Err(AstErrorView::StackUnderflow)
            } else {
                let outer = if saved.len() > 0 {
                    saved.last()
                } else {
                    None
                };
                let saved2 = if saved.len() > 0 {
                    saved.drop_last()
                } else {
                    saved
                };
                match outer {
                    Some(p) => if res is Empty {
                        multi_val(ts, errpos, i + 1, res, Some(p), depth, stack.drop_last(), saved2)
                    } else {
                        multi_val(
                            ts,
                            errpos,
                            i + 1,
                            apply_op(p, res),
                            None,
                            depth,
                            stack.drop_last(),
                            saved2,
                        )
                    },
                    None => multi_val(ts, errpos, i + 1, res, None, depth, stack.drop_last(), saved2),
                }
            },
            TokenKind::Word => {
                let v = ExprView::Name(t.literal);
                match op {
                    Some(p) => multi_val(ts, errpos, i + 1, apply_op(p, v), None, depth, stack, saved),
                    None => multi_val(ts, errpos, i + 1, v, None, depth, stack, saved),
                }
            },
            TokenKind::Num => match parsed_isize(t.literal) {
                Some(n) => match op {
                    Some(p) => multi_val(
                        ts,
                        errpos,
                        i + 1,
                        apply_op(p, ExprView::Num(n)),
                        None,
                        depth,
                        stack,
                        saved,
                    ),
                    None => multi_val(
                        ts,
                        errpos,
                        i + 1,
                        res,
                        None,
                        depth,
                        stack.push(ExprView::Num(n)),
                        saved,
                    ),
                },
                None => Err(malformed(Construct::NumLiteral, t.pos)),
            },
            TokenKind::Error => Err(AstErrorView::Unknown { token: t.literal, pos: t.pos }),
            TokenKind::ExprEnd => if depth < 1 {
                match op {
                    Some(p) => Err(malformed(Construct::UndelimitedExpression, p.2)),
                    None => Ok(res),
                }
            } else {
                Err(AstErrorView::Unimplemented { pos: Some(errpos) })
            },
            _ => match op_of(t.kind) {
                Some(c) => if op is Some {
                    Err(malformed(Construct::UndelimitedExpression, t.pos))
                } else if !(res is Empty) {
                    multi_val(
                        ts,
                        errpos,
                        i + 1,
                        ExprView::Empty,
                        Some((res, c, t.pos)),
                        depth,
                        stack,
                        saved,
                    )
                } else if stack.len() > 0 && !(stack.last() is Empty) {
                    multi_val(
                        ts,
                        errpos,
                        i + 1,
                        ExprView::Empty,
                        Some((stack.last(), c, t.pos)),
                        depth,
                        stack.drop_last(),
                        saved,
                    )
                } else {
                    Err(malformed(Construct::UndelimitedExpression, t.pos))
                },
                None => Err(malformed(Construct::UndelimitedExpression, ts[0].pos)),
            },
        }
    }
}

/// What `parse_val` gives for the tokens `ts`: nothing for no token, the
/// reading of one token alone, or the reading of several.
pub open spec fn val_of(ts: Seq<TokenView>, errpos: CodePos) -> Result<ExprView, AstErrorView> {
    if ts.len() == 0 {
        Ok(ExprView::Empty)
    } else if ts.len() == 1 {
        single_val(ts[0], errpos)
    } else {
        multi_val(ts, errpos, 0, ExprView::Empty, None, 0, Seq::empty(), Seq::empty())
    }
}

/// The views of the values set aside.
pub open spec fn stack_view(s: Seq<Expr>) -> Seq<ExprView> {
    s.map_values(|e: Expr| e@)
}

/// The views of the waiting operations set aside.
pub open spec fn saved_view(s: Seq<Option<(Expr, char, CodePos)>>) -> Seq<
    Option<(ExprView, char, CodePos)>,
> {
    s.map_values(|p: Option<(Expr, char, CodePos)>| pending_view(p))
}

/// Every value set aside, and the left-hand side of every waiting
/// operation, is well formed.
pub open spec fn parts_wf(
    res: Expr,
    op: Option<(Expr, char, CodePos)>,
    stack: Seq<Expr>,
    saved: Seq<Option<(Expr, char, CodePos)>>,
) -> bool {
    &&& expr_wf(res@)
    &&& (op matches Some(p) ==> expr_wf(p.0@))
    &&& forall|j: int| 0 <= j < stack.len() ==> expr_wf(#[trigger] stack[j]@)
    &&& forall|j: int|
        0 <= j < saved.len() ==> (#[trigger] saved[j] matches Some(p) ==> expr_wf(p.0@))
}

/// Parses a value from the tokens `value`; `errpos` is where errors that
/// concern the whole value are reported.
pub fn parse_val(value: EcoVec<Token>, errpos: CodePos) -> (r: Result<Box<Expr>, AstError>)
    requires
        token_views(value).len() == 1 ==> literal_ok(token_views(value)[0]),
    ensures
        r matches Ok(e) ==> expr_wf(e@),
        match r {
            Ok(e) => val_of(token_views(value), errpos) == Ok::<ExprView, AstErrorView>(e@),
            Err(e) => val_of(token_views(value), errpos) == Err::<ExprView, AstErrorView>(e@),
        },
        token_views(value).len() == 1 && token_views(value)[0].kind == TokenKind::Str
            && plain_str_literal(token_views(value)[0].literal) ==> r is Ok && r->Ok_0@
            == ExprView::Str(
            token_views(value)[0].literal.subrange(1, token_views(value)[0].literal.len() - 1),
        ),
        token_views(value).len() == 1 && token_views(value)[0].kind == TokenKind::Chr
            && plain_chr_literal(token_views(value)[0].literal) ==> r is Ok && r->Ok_0@
            == ExprView::Chr(token_views(value)[0].literal[1]),
{
    let ts = token_vec_as_slice(&value);
    let ghost tv = token_views(value);
    proof {
        assert(ts@.len() == tv.len());
        assert forall|k: int| 0 <= k < ts@.len() implies #[trigger] ts@[k]@ == tv[k] by {
            assert(ts@.map_values(|t: Token| t@)[k] == ts@[k]@);
        }
    }
    if ts.len() == 0 {
        return Ok(Box::new(Expr::Empty));
    }
    if ts.len() == 1 {
        return match single(&ts[0], errpos) {
            Ok(e) => Ok(Box::new(e)),
            Err(e) => Err(e),
        };
    }
    let mut res = Expr::Empty;
    let mut op: Option<(Expr, char, CodePos)> = None;
    let mut depth: usize = 0;
    let mut stack: Vec<Expr> = Vec::new();
    let mut saved: Vec<Option<(Expr, char, CodePos)>> = Vec::new();
    let mut i: usize = 0;
    proof {
        assert(stack_view(stack@) =~= Seq::<ExprView>::empty());
        assert(saved_view(saved@) =~= Seq::<Option<(ExprView, char, CodePos)>>::empty());
    }
    while i < ts.len()
        invariant
            tv == token_views(value),
            ts@.len() == tv.len(),
            tv.len() >= 2,
            forall|k: int| 0 <= k < ts@.len() ==> #[trigger] ts@[k]@ == tv[k],
            i <= tv.len(),
            depth <= i,
            parts_wf(res, op, stack@, saved@),
            multi_val(
                tv,
                errpos,
                i as int,
                res@,
                pending_view(op),
                depth as int,
                stack_view(stack@),
                saved_view(saved@),
            ) == multi_val(tv, errpos, 0, ExprView::Empty, None, 0, Seq::empty(), Seq::empty()),
        decreases tv.len() - i,
    {
        let t = &ts[i];
        proof {
            assert(t@ == tv[i as int]);
        }
        let ghost sv = stack_view(stack@);
        let ghost pv = saved_view(saved@);
        let ghost old_stack = stack@;
        let ghost old_saved = saved@;
        match t.kind {
            TokenKind::LParen => {
                let held = res;
                let held_op = op;
                stack.push(held);
                saved.push(held_op);
                proof {
                    assert(stack_view(stack@) =~= sv.push(held@));
                    assert(saved_view(saved@) =~= pv.push(pending_view(held_op)));
                    assert(stack@ =~= old_stack.push(held));
                    assert(saved@ =~= old_saved.push(held_op));
                }
                depth = depth + 1;
                res = Expr::Empty;
                op = None;
            },
            TokenKind::RParen => {
                if depth < 1 {
                    return Err(
                        AstError::Malformed { what: Construct::ParenthesizedExpression, pos: t.pos },
                    );
                }
                if let Some(p) = &op {
                    return Err(
                        AstError::Malformed { what: Construct::UndelimitedExpression, pos: p.2 },
                    );
                }
                if stack.len() == 0 {
                    return Err(AstError::StackUnderflow);
                }
                let _dropped = stack.pop();
                proof {
                    assert(stack_view(stack@) =~= sv.drop_last());
                    assert(stack@ =~= old_stack.drop_last());
                }
                let outer = if saved.len() > 0 {
                    let o = saved.pop().unwrap();
                    proof {
                        assert(saved_view(saved@) =~= pv.drop_last());
                        assert(saved@ =~= old_saved.drop_last());
                        assert(pending_view(o) == pv.last());
                        assert(o == old_saved.last());
                    }
                    o
                } else {
                    None
                };
                match outer {
                    Some(p) => {
                        if Expr::check(&res) {
                            op = Some(p);
                        } else {
                            let inner = res;
                            res = apply_pending(p, inner);
                        }
                    },
                    None => {},
                }
            },
            TokenKind::Word => {
                let v = Expr::Name(t.literal.clone());
                match op {
                    Some(p) => {
                        res = apply_pending(p, v);
                    },
                    None => {
                        res = v;
                    },
                }
                op = None;
            },
            TokenKind::Num => {
                let cs = chars_of(eco_string_as_str(&t.literal));
                match parse_isize(cs.as_slice()) {
                    Some(n) => {
                        match op {
                            Some(p) => {
                                res = apply_pending(p, Expr::Num(n));
                            },
                            None => {
                                stack.push(Expr::Num(n));
                                proof {
                                    assert(stack_view(stack@) =~= sv.push(ExprView::Num(n)));
                                    assert(stack@ =~= old_stack.push(Expr::Num(n)));
                                }
                            },
                        }
                        op = None;
                    },
                    None => {
                        return Err(AstError::Malformed { what: Construct::NumLiteral, pos: t.pos });
                    },
                }
            },
            TokenKind::Error => {
                return Err(AstError::Unknown { token: t.literal.clone(), pos: t.pos });
            },
            TokenKind::ExprEnd => {
                if depth < 1 {
                    return match op {
                        Some(p) => Err(
                            AstError::Malformed { what: Construct::UndelimitedExpression, pos: p.2 },
                        ),
                        None => Ok(Box::new(res)),
                    };
                } else {
                    return Err(AstError::Unimplemented { pos: Some(errpos) });
                }
            },
            _ => {
                match operator_of(t.kind) {
                    Some(c) => {
                        if op.is_some() {
                            return Err(
                                AstError::Malformed {
                                    what: Construct::UndelimitedExpression,
                                    pos: t.pos,
                                },
                            );
                        }
                        if !Expr::check(&res) {
                            let left = res;
                            op = Some((left, c, t.pos));
                            res = Expr::Empty;
                        } else if stack.len() > 0 && !Expr::check(&stack[stack.len() - 1]) {
                            let left = stack.pop().unwrap();
                            proof {
                                assert(stack_view(stack@) =~= sv.drop_last());
                                assert(stack@ =~= old_stack.drop_last());
                                assert(left@ == sv.last());
                            }
                            op = Some((left, c, t.pos));
                        } else {
                            return Err(
                                AstError::Malformed {
                                    what: Construct::UndelimitedExpression,
                                    pos: t.pos,
                                },
                            );
                        }
                    },
                    None => {
                        proof {
                            assert(ts@[0]@ == tv[0]);
                        }
                        return Err(
                            AstError::Malformed {
                                what: Construct::UndelimitedExpression,
                                pos: ts[0].pos,
                            },
                        );
                    },
                }
            },
        }
        i += 1;
    }
    match op {
        Some(p) => Err(AstError::Malformed { what: Construct::UndelimitedExpression, pos: p.2 }),
        None => {
            if Expr::check(&res) {
                Ok(Box::new(res))
            } else if stack.len() > 0 {
                Ok(Box::new(stack.pop().unwrap()))
            } else {
                Ok(Box::new(res))
            }
        },
    }
}


/// The value that a name or an integer token stands for as an operand, if
/// it is one.
pub open spec fn operand(t: TokenView) -> Option<ExprView> {
    match t.kind {
        TokenKind::Word => Some(ExprView::Name(t.literal)),
        TokenKind::Num => match parsed_isize(t.literal) {
            Some(n) => Some(ExprView::Num(n)),
            None => None,
        },
        _ => None,
    }
}

/// An operation keeps its operands in the order written: of an operand,
/// an operator and an operand, the first is the left-hand side and the
/// second the right-hand side.
pub proof fn lemma_operation_keeps_operand_order(
    a: TokenView,
    o: TokenView,
    b: TokenView,
    errpos: CodePos,
)
    requires
        operand(a) is Some,
        operand(b) is Some,
        op_of(o.kind) is Some,
    ensures
        val_of(seq![a, o, b], errpos) == Ok::<ExprView, AstErrorView>(
            ExprView::MathOp {
                left: Box::new(operand(a)->Some_0),
                right: Box::new(operand(b)->Some_0),
                op: op_of(o.kind)->Some_0,
            },
        ),
{
    let ts = seq![a, o, b];
    assert(ts[0] == a && ts[1] == o && ts[2] == b);
    reveal_with_fuel(multi_val, 4);
}

/// Operations are read left to right, with no precedence: of three
/// operands and two operators between them, the first two make an
/// operation, which is the left-hand side of the second operator, and the
/// third operand its right-hand side.
pub proof fn lemma_operations_read_left_to_right(
    a: TokenView,
    o1: TokenView,
    b: TokenView,
    o2: TokenView,
    c: TokenView,
    errpos: CodePos,
)
    requires
        operand(a) is Some,
        operand(b) is Some,
        operand(c) is Some,
        op_of(o1.kind) is Some,
        op_of(o2.kind) is Some,
    ensures
        val_of(seq![a, o1, b, o2, c], errpos) == Ok::<ExprView, AstErrorView>(
            ExprView::MathOp {
                left: Box::new(
                    ExprView::MathOp {
                        left: Box::new(operand(a)->Some_0),
                        right: Box::new(operand(b)->Some_0),
                        op: op_of(o1.kind)->Some_0,
                    },
                ),
                right: Box::new(operand(c)->Some_0),
                op: op_of(o2.kind)->Some_0,
            },
        ),
{
    let ts = seq![a, o1, b, o2, c];
    assert(ts[0] == a && ts[1] == o1 && ts[2] == b && ts[3] == o2 && ts[4] == c);
    reveal_with_fuel(multi_val, 6);
}

/// A raw string's content without the escape `\>` stands for itself.
proof fn lemma_raw_text_plain(s: Seq<char>)
    requires
        forall|j: int| 0 <= j < s.len() - 1 ==> !(#[trigger] s[j] == '\\' && s[j + 1] == '>'),
    ensures
        raw_text(s) == s,
    decreases s.len(),
{
    if s.len() > 0 {
        let t = s.subrange(1, s.len() as int);
        assert forall|j: int| 0 <= j < t.len() - 1 implies !(#[trigger] t[j] == '\\' && t[j + 1]
            == '>') by {
            assert(t[j] == s[j + 1] && t[j + 1] == s[j + 2]);
        }
        lemma_raw_text_plain(t);
        assert(seq![s[0]] + t =~= s);
    }
}

/// A raw string literal keeps its content as written, white space at
/// either end included, where the content holds no escaped `>`: the value
/// of the one token `<<s>>` is the string `s`.
pub proof fn lemma_raw_string_verbatim(s: Seq<char>, pos: CodePos, errpos: CodePos)
    requires
        forall|j: int| 0 <= j < s.len() - 1 ==> !(#[trigger] s[j] == '\\' && s[j + 1] == '>'),
    ensures
        val_of(
            seq![TokenView { kind: TokenKind::RawStr, literal: seq!['<', '<'] + s + seq!['>', '>'], pos }],
            errpos,
        ) == Ok::<ExprView, AstErrorView>(ExprView::Str(s)),
{
    lemma_unbun_takes_off_quotes(s, pos);
    lemma_raw_text_plain(s);
}

} // verus!
