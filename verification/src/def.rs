//! The language's data model (tokens, expressions, kinds) and the tokenizer.
use vstd::prelude::*;
use ecow::EcoString;
use ecow::EcoVec;
use vstd::string::StringSliceAdditionalSpecFns;
use crate::eco::{eco_chars, token_views, token_vec_new, token_vec_push};
use crate::lexer::{
    Lexeme, lexed, lex_from, step_rule, is_longest, span, rule_matches,
    lemma_longest_unique, lemma_error_unique, lemma_wins_unique, byte_len,
};
use crate::select::longest_rule;
use crate::error_span::error_len;
use crate::text::{chars_of, trimmed, advance, lemma_byte_len_encoding, lemma_byte_len_prefix, lemma_newlines_bound};

verus! {

/// A position in the source: the line (counted from 1) and the column.
#[derive(Clone, Copy, Debug, PartialEq, Eq, Structural)]
pub struct CodePos(pub usize, pub usize);

/// Every kind of token of the language.
#[derive(Clone, Copy, Debug, PartialEq, Eq, Structural)]
pub enum TokenKind {
    Comment,
    Doc,
    ExprEnd,
    Comma,
    EqSign,
    Colon,
    Bang,
    LParen,
    RParen,
    LBracket,
    Rbracket,
    LBrace,
    RBrace,
    LDblBrace,
    RDblBrace,
    Plus,
    Minus,
    Star,
    Slash,
    Caret,
    Percent,
    Hash,
    AtSign,
    Tilde,
    Arrow,
    NotSign,
    Ampersand,
    Pipe,
    BackSlash,
    Show,
    Read,
    As,
    Let,
    Mut,
    Def,
    Fun,
    Return,
    Rec,
    If,
    Elif,
    Else,
    Loop,
    While,
    Every,
    Do,
    Num,
    Dot,
    Str,
    RawStr,
    Chr,
    Bln,
    Word,
    Error,
}

/// A token: what it is, its raw text and where it starts.
#[derive(Debug, PartialEq)]
pub struct Token {
    pub kind: TokenKind,
    pub literal: EcoString,
    pub pos: CodePos,
}

/// What a token is seen as in contracts: its text as characters.
pub struct TokenView {
    pub kind: TokenKind,
    pub literal: Seq<char>,
    pub pos: CodePos,
}

impl View for Token {
    type V = TokenView;

    open spec fn view(&self) -> TokenView {
        TokenView { kind: self.kind, literal: eco_chars(self.literal), pos: self.pos }
    }
}

/// Bit widths of sized kinds.
#[derive(Clone, Copy, Debug, PartialEq, Eq, Structural)]
pub enum NBit {
    T8,
    T16,
    T32,
    T64,
    T128,
    TSize,
}

/// What a binding declares: a value, a mutable value, or a type definition.
#[derive(Clone, Copy, Debug, PartialEq, Eq, Structural)]
pub enum BindKind {
    Value,
    MutValue,
    Define,
}

/// Every kind a value of the language can have.
///
/// A record's fields and a function's parameters are held as a list of
/// named kinds; `kind_wf` states that their names are all different, as a
/// map's keys are.
#[derive(Debug, PartialEq)]
pub enum VarKind {
    Num,
    Unum,
    Dot,
    Str,
    Chr,
    Bln,
    NumX(NBit),
    UnumX(NBit),
    DotX(NBit),
    ChrX(NBit),
    Ref(Box<VarKind>),
    Arr(Box<VarKind>, usize),
    Tup(Vec<VarKind>),
    Rec(Vec<(EcoString, VarKind)>),
    Fun(Vec<(EcoString, VarKind)>, Box<VarKind>),
    Unit,
    Unknown,
}

/// Every expression of the language.
///
/// A decimal ("dot") literal is held as its decimal text, with `.` as the
/// separator, exactly as `f64`'s parser accepts it. A record literal's
/// fields and a function literal's parameters are held as lists of named
/// items; `expr_wf` states that their names are all different. Every
/// expression that the tree builder gives is well formed in that sense.
#[derive(Debug, PartialEq)]
pub enum Expr {
    Empty,
    Num(isize),
    Pos(usize),
    Dot(EcoString),
    Str(EcoString),
    Chr(char),
    Bln(bool),
    Name(EcoString),
    Block(Vec<Expr>),
    Tup(Vec<Expr>),
    Arr(Vec<Expr>, VarKind),
    Rec(Vec<(EcoString, (Expr, VarKind))>),
    Fun { kind: VarKind, args: (usize, Vec<(EcoString, VarKind)>), body: Box<Expr> },
    MathOp { left: Box<Expr>, right: Box<Expr>, op: char },
    Bind { id: EcoString, kind: (BindKind, VarKind), val: Box<Expr> },
    ReBind { id: EcoString, val: Box<Expr> },
}

/// What a kind is seen as in contracts: names as their characters, lists as
/// the views of their items.
pub enum KindView {
    Num,
    Unum,
    Dot,
    Str,
    Chr,
    Bln,
    NumX(NBit),
    UnumX(NBit),
    DotX(NBit),
    ChrX(NBit),
    Ref(Box<KindView>),
    Arr(Box<KindView>, usize),
    Tup(Seq<KindView>),
    Rec(Seq<(Seq<char>, KindView)>),
    Fun(Seq<(Seq<char>, KindView)>, Box<KindView>),
    Unit,
    Unknown,
}

/// What an expression is seen as in contracts: strings as their characters,
/// lists as the views of their items.
pub enum ExprView {
    Empty,
    Num(isize),
    Pos(usize),
    Dot(Seq<char>),
    Str(Seq<char>),
    Chr(char),
    Bln(bool),
    Name(Seq<char>),
    Block(Seq<ExprView>),
    Tup(Seq<ExprView>),
    Arr(Seq<ExprView>, KindView),
    Rec(Seq<(Seq<char>, (ExprView, KindView))>),
    Fun { kind: KindView, args: (usize, Seq<(Seq<char>, KindView)>), body: Box<ExprView> },
    MathOp { left: Box<ExprView>, right: Box<ExprView>, op: char },
    Bind { id: Seq<char>, kind: (BindKind, KindView), val: Box<ExprView> },
    ReBind { id: Seq<char>, val: Box<ExprView> },
}

impl View for VarKind {
    type V = KindView;

    open spec fn view(&self) -> KindView {
        kind_seen(*self)
    }
}

impl View for Expr {
    type V = ExprView;

    open spec fn view(&self) -> ExprView {
        expr_seen(*self)
    }
}

/// The view of a kind (`@`), written as a function of its own so that it
/// may recurse into the kinds it holds.
pub open spec fn kind_seen(k: VarKind) -> KindView
    decreases k, 1int,
{
    match k {
        VarKind::Num => KindView::Num,
        VarKind::Unum => KindView::Unum,
        VarKind::Dot => KindView::Dot,
        VarKind::Str => KindView::Str,
        VarKind::Chr => KindView::Chr,
        VarKind::Bln => KindView::Bln,
        VarKind::NumX(b) => KindView::NumX(b),
        VarKind::UnumX(b) => KindView::UnumX(b),
        VarKind::DotX(b) => KindView::DotX(b),
        VarKind::ChrX(b) => KindView::ChrX(b),
        VarKind::Ref(inner) => KindView::Ref(Box::new(kind_seen(*inner))),
        VarKind::Arr(inner, n) => KindView::Arr(Box::new(kind_seen(*inner)), n),
        VarKind::Tup(v) => KindView::Tup(kinds_seen(v@)),
        VarKind::Rec(v) => KindView::Rec(named_kinds_seen(v@)),
        VarKind::Fun(v, ret) => KindView::Fun(named_kinds_seen(v@), Box::new(kind_seen(*ret))),
        VarKind::Unit => KindView::Unit,
        VarKind::Unknown => KindView::Unknown,
    }
}

/// The views of a list of kinds.
pub open spec fn kinds_seen(s: Seq<VarKind>) -> Seq<KindView>
    decreases s, 0int,
{
    if s.len() == 0 {
        Seq::empty()
    } else {
        kinds_seen(s.drop_last()).push(kind_seen(s.last()))
    }
}

/// The views of a list of named kinds.
pub open spec fn named_kinds_seen(s: Seq<(EcoString, VarKind)>) -> Seq<(Seq<char>, KindView)>
    decreases s, 0int,
{
    if s.len() == 0 {
        Seq::empty()
    } else {
        named_kinds_seen(s.drop_last()).push((eco_chars(s.last().0), kind_seen(s.last().1)))
    }
}

/// The view of an expression (`@`), written as a function of its own so
/// that it may recurse into the expressions it holds.
pub open spec fn expr_seen(e: Expr) -> ExprView
    decreases e, 1int,
{
    match e {
        Expr::Empty => ExprView::Empty,
        Expr::Num(n) => ExprView::Num(n),
        Expr::Pos(n) => ExprView::Pos(n),
        Expr::Dot(s) => ExprView::Dot(eco_chars(s)),
        Expr::Str(s) => ExprView::Str(eco_chars(s)),
        Expr::Chr(c) => ExprView::Chr(c),
        Expr::Bln(b) => ExprView::Bln(b),
        Expr::Name(s) => ExprView::Name(eco_chars(s)),
        Expr::Block(v) => ExprView::Block(exprs_seen(v@)),
        Expr::Tup(v) => ExprView::Tup(exprs_seen(v@)),
        Expr::Arr(v, k) => ExprView::Arr(exprs_seen(v@), kind_seen(k)),
        Expr::Rec(v) => ExprView::Rec(named_exprs_seen(v@)),
        Expr::Fun { kind, args, body } => ExprView::Fun {
            kind: kind_seen(kind),
            args: (args.0, named_kinds_seen(args.1@)),
            body: Box::new(expr_seen(*body)),
        },
        Expr::MathOp { left, right, op } => ExprView::MathOp {
            left: Box::new(expr_seen(*left)),
            right: Box::new(expr_seen(*right)),
            op,
        },
        Expr::Bind { id, kind, val } => ExprView::Bind {
            id: eco_chars(id),
            kind: (kind.0, kind_seen(kind.1)),
            val: Box::new(expr_seen(*val)),
        },
        Expr::ReBind { id, val } => ExprView::ReBind {
            id: eco_chars(id),
            val: Box::new(expr_seen(*val)),
        },
    }
}

/// The views of a list of expressions.
pub open spec fn exprs_seen(s: Seq<Expr>) -> Seq<ExprView>
    decreases s, 0int,
{
    if s.len() == 0 {
        Seq::empty()
    } else {
        exprs_seen(s.drop_last()).push(expr_seen(s.last()))
    }
}

/// The views of a list of named expressions with their kinds.
pub open spec fn named_exprs_seen(s: Seq<(EcoString, (Expr, VarKind))>) -> Seq<
    (Seq<char>, (ExprView, KindView)),
>
    decreases s, 0int,
{
    if s.len() == 0 {
        Seq::empty()
    } else {
        named_exprs_seen(s.drop_last()).push(
            (eco_chars(s.last().0), (expr_seen(s.last().1.0), kind_seen(s.last().1.1))),
        )
    }
}

/// The names of a list of named items are all different, as the keys of a
/// map are.
pub open spec fn names_distinct<T>(s: Seq<(Seq<char>, T)>) -> bool {
    forall|a: int, b: int| 0 <= a < b < s.len() ==> s[a].0 != s[b].0
}

/// A kind is well formed where each record and each function in it names
/// every field and every parameter once.
pub open spec fn kind_wf(k: KindView) -> bool
    decreases k,
{
    match k {
        KindView::Ref(b) => kind_wf(*b),
        KindView::Arr(b, _) => kind_wf(*b),
        KindView::Tup(s) => forall|j: int| 0 <= j < s.len() ==> kind_wf(#[trigger] s[j]),
        KindView::Rec(s) => names_distinct(s) && forall|j: int|
            0 <= j < s.len() ==> kind_wf(#[trigger] s[j].1),
        KindView::Fun(s, r) => names_distinct(s) && (forall|j: int|
            0 <= j < s.len() ==> kind_wf(#[trigger] s[j].1)) && kind_wf(*r),
        _ => true,
    }
}

/// An expression is well formed where each record literal and each function
/// literal in it names every field and every parameter once, and the kinds
/// in it are well formed.
pub open spec fn expr_wf(e: ExprView) -> bool
    decreases e,
{
    match e {
        ExprView::Block(s) => forall|j: int| 0 <= j < s.len() ==> expr_wf(#[trigger] s[j]),
        ExprView::Tup(s) => forall|j: int| 0 <= j < s.len() ==> expr_wf(#[trigger] s[j]),
        ExprView::Arr(s, k) => (forall|j: int| 0 <= j < s.len() ==> expr_wf(#[trigger] s[j]))
            && kind_wf(k),
        ExprView::Rec(s) => names_distinct(s) && forall|j: int|
            0 <= j < s.len() ==> expr_wf(#[trigger] s[j].1.0) && kind_wf(s[j].1.1),
        ExprView::Fun { kind, args, body } => kind_wf(kind) && names_distinct(args.1) && (forall|
            j: int,
        |
            0 <= j < args.1.len() ==> kind_wf(#[trigger] args.1[j].1)) && expr_wf(*body),
        ExprView::MathOp { left, right, op } => expr_wf(*left) && expr_wf(*right),
        ExprView::Bind { id, kind, val } => kind_wf(kind.1) && expr_wf(*val),
        ExprView::ReBind { id, val } => expr_wf(*val),
        _ => true,
    }
}

impl Clone for Token {
    fn clone(&self) -> (r: Self)
        ensures
            r == *self,
    {
        Token { kind: self.kind, literal: self.literal.clone(), pos: self.pos }
    }
}

impl Clone for VarKind {
    fn clone(&self) -> (r: Self)
        ensures
            r@ == self@,
        decreases self,
    {
        match self {
            VarKind::Num => VarKind::Num,
            VarKind::Unum => VarKind::Unum,
            VarKind::Dot => VarKind::Dot,
            VarKind::Str => VarKind::Str,
            VarKind::Chr => VarKind::Chr,
            VarKind::Bln => VarKind::Bln,
            VarKind::NumX(b) => VarKind::NumX(*b),
            VarKind::UnumX(b) => VarKind::UnumX(*b),
            VarKind::DotX(b) => VarKind::DotX(*b),
            VarKind::ChrX(b) => VarKind::ChrX(*b),
            VarKind::Ref(k) => VarKind::Ref(Box::new((**k).clone())),
            VarKind::Arr(k, n) => VarKind::Arr(Box::new((**k).clone()), *n),
            VarKind::Tup(v) => VarKind::Tup(clone_kinds(v)),
            VarKind::Rec(m) => VarKind::Rec(clone_named_kinds(m)),
            VarKind::Fun(m, k) => VarKind::Fun(clone_named_kinds(m), Box::new((**k).clone())),
            VarKind::Unit => VarKind::Unit,
            VarKind::Unknown => VarKind::Unknown,
        }
    }
}

/// A copy of a list of kinds, item by item.
fn clone_kinds(v: &Vec<VarKind>) -> (r: Vec<VarKind>)
    ensures
        kinds_seen(r@) == kinds_seen(v@),
    decreases v,
{
    let mut r: Vec<VarKind> = Vec::new();
    let mut i: usize = 0;
    while i < v.len()
        invariant
            i <= v.len(),
            kinds_seen(r@) == kinds_seen(v@.subrange(0, i as int)),
        decreases v.len() - i,
    {
        let ghost before = r@;
        r.push(v[i].clone());
        proof {
            assert(r@.drop_last() =~= before);
            assert(v@.subrange(0, i + 1).drop_last() =~= v@.subrange(0, i as int));
        }
        i += 1;
    }
    proof {
        assert(v@.subrange(0, i as int) =~= v@);
    }
    r
}

/// A copy of a list of named kinds, item by item.
fn clone_named_kinds(v: &Vec<(EcoString, VarKind)>) -> (r: Vec<(EcoString, VarKind)>)
    ensures
        named_kinds_seen(r@) == named_kinds_seen(v@),
    decreases v,
{
    let mut r: Vec<(EcoString, VarKind)> = Vec::new();
    let mut i: usize = 0;
    while i < v.len()
        invariant
            i <= v.len(),
            named_kinds_seen(r@) == named_kinds_seen(v@.subrange(0, i as int)),
        decreases v.len() - i,
    {
        let ghost before = r@;
        r.push((v[i].0.clone(), v[i].1.clone()));
        proof {
            assert(r@.drop_last() =~= before);
            assert(v@.subrange(0, i + 1).drop_last() =~= v@.subrange(0, i as int));
        }
        i += 1;
    }
    proof {
        assert(v@.subrange(0, i as int) =~= v@);
    }
    r
}

/// A copy of a list of expressions, item by item.
fn clone_exprs(v: &Vec<Expr>) -> (r: Vec<Expr>)
    ensures
        exprs_seen(r@) == exprs_seen(v@),
    decreases v,
{
    let mut r: Vec<Expr> = Vec::new();
    let mut i: usize = 0;
    while i < v.len()
        invariant
            i <= v.len(),
            exprs_seen(r@) == exprs_seen(v@.subrange(0, i as int)),
        decreases v.len() - i,
    {
        let ghost before = r@;
        r.push(v[i].clone());
        proof {
            assert(r@.drop_last() =~= before);
            assert(v@.subrange(0, i + 1).drop_last() =~= v@.subrange(0, i as int));
        }
        i += 1;
    }
    proof {
        assert(v@.subrange(0, i as int) =~= v@);
    }
    r
}

/// A copy of a list of named expressions with their kinds, item by item.
fn clone_named_exprs(v: &Vec<(EcoString, (Expr, VarKind))>) -> (r: Vec<
    (EcoString, (Expr, VarKind)),
>)
    ensures
        named_exprs_seen(r@) == named_exprs_seen(v@),
    decreases v,
{
    let mut r: Vec<(EcoString, (Expr, VarKind))> = Vec::new();
    let mut i: usize = 0;
    while i < v.len()
        invariant
            i <= v.len(),
            named_exprs_seen(r@) == named_exprs_seen(v@.subrange(0, i as int)),
        decreases v.len() - i,
    {
        let ghost before = r@;
        r.push((v[i].0.clone(), (v[i].1.0.clone(), v[i].1.1.clone())));
        proof {
            assert(r@.drop_last() =~= before);
            assert(v@.subrange(0, i + 1).drop_last() =~= v@.subrange(0, i as int));
        }
        i += 1;
    }
    proof {
        assert(v@.subrange(0, i as int) =~= v@);
    }
    r
}

impl Clone for Expr {
    fn clone(&self) -> (r: Self)
        ensures
            r@ == self@,
        decreases self,
    {
        match self {
            Expr::Empty => Expr::Empty,
            Expr::Num(n) => Expr::Num(*n),
            Expr::Pos(n) => Expr::Pos(*n),
            Expr::Dot(s) => Expr::Dot(s.clone()),
            Expr::Str(s) => Expr::Str(s.clone()),
            Expr::Chr(c) => Expr::Chr(*c),
            Expr::Bln(b) => Expr::Bln(*b),
            Expr::Name(s) => Expr::Name(s.clone()),
            Expr::Block(v) => Expr::Block(clone_exprs(v)),
            Expr::Tup(v) => Expr::Tup(clone_exprs(v)),
            Expr::Arr(v, k) => Expr::Arr(clone_exprs(v), k.clone()),
            Expr::Rec(m) => Expr::Rec(clone_named_exprs(m)),
            Expr::Fun { kind, args, body } => Expr::Fun {
                kind: kind.clone(),
                args: (args.0, clone_named_kinds(&args.1)),
                body: Box::new((**body).clone()),
            },
            Expr::MathOp { left, right, op } => Expr::MathOp {
                left: Box::new((**left).clone()),
                right: Box::new((**right).clone()),
                op: *op,
            },
            Expr::Bind { id, kind, val } => Expr::Bind {
                id: id.clone(),
                kind: (kind.0, kind.1.clone()),
                val: Box::new((**val).clone()),
            },
            Expr::ReBind { id, val } => Expr::ReBind {
                id: id.clone(),
                val: Box::new((**val).clone()),
            },
        }
    }
}

/// Splits source text into tokens.
///
/// At each position the longest text that some token rule (or white space)
/// matches is taken, ties going to the rule of highest priority; where no
/// rule matches, an `Error` token is made. White space and comments are
/// dropped. Each token holds its text without surrounding white space, its
/// line (from 1) and its column: how many bytes into its line it starts.
pub fn tokenize(src: &str) -> (r: EcoVec<Token>)
    requires
        src.spec_bytes().len() <= usize::MAX,
    ensures
        token_views(r) == lexed(src@),
{
    let chars = chars_of(src);
    let cs = chars.as_slice();
    let ghost input = src@;
    proof {
        lemma_byte_len_encoding(input);
        assert(input.subrange(0, 0) =~= Seq::<char>::empty());
    }
    let mut out = token_vec_new();
    let mut i: usize = 0;
    let mut bytes: usize = 0;
    let mut lines: usize = 0;
    let mut line_start: usize = 0;
    while i < cs.len()
        invariant
            cs@ == input,
            i <= input.len(),
            bytes == byte_len(input.subrange(0, i as int)),
            line_start <= bytes,
            lines <= i,
            byte_len(input) <= usize::MAX,
            token_views(out) + lex_from(input, i as int, lines as int, line_start as int) == lexed(
                input,
            ),
        decreases input.len() - i,
    {
        let (found, rule) = longest_rule(cs, i);
        let n: usize = if found > 0 {
            found
        } else {
            error_len(cs, i)
        };
        proof {
            if found > 0 {
                lemma_longest_unique(input, i as int, n as int);
                lemma_wins_unique(rule, span(input, i as int, n as int));
                assert(step_rule(input, i as int) == Some(rule));
            } else {
                assert forall|m: int| !is_longest(input, i as int, m) by {
                    if is_longest(input, i as int, m) {
                        let l = choose|l: Lexeme| #[trigger] rule_matches(l, span(input, i as int, m));
                        assert(rule_matches(l, span(input, i as int, m)));
                    }
                }
                lemma_error_unique(input, i as int, n as int);
                assert(step_rule(input, i as int) == None::<Lexeme>);
            }
        }
        let (after, nl, next_line_start) = advance(cs, i, i + n, bytes, line_start);
        let ghost old_views = token_views(out);
        if found > 0 && rule == Lexeme::Space {
            proof {
                lemma_newlines_bound(span(input, i as int, n as int));
            }
            lines = lines + nl;
            line_start = next_line_start;
        } else if found > 0 && rule == Lexeme::Tok(TokenKind::Comment) {
        } else {
            let kind = if found > 0 {
                match rule {
                    Lexeme::Tok(k) => k,
                    Lexeme::Space => TokenKind::Error,
                }
            } else {
                TokenKind::Error
            };
            let tok = Token {
                kind,
                literal: trimmed(cs, i, i + n),
                pos: CodePos(lines + 1, bytes - line_start),
            };
            token_vec_push(&mut out, tok);
            proof {
                assert(token_views(out) + lex_from(input, i + n, lines as int, line_start as int)
                    =~= old_views + lex_from(input, i as int, lines as int, line_start as int));
            }
        }
        proof {
            lemma_byte_len_prefix(input, i + n, input.len() as int);
            lemma_byte_len_prefix(input, i as int, i + n);
            let text = crate::lexer::span(input, i as int, n as int);
            crate::lexer::lemma_last_newline_range(text);
            if crate::lexer::last_newline(text) >= 0 {
                lemma_byte_len_prefix(input, i + crate::lexer::last_newline(text) + 1, i + n);
            }
        }
        bytes = after;
        i = i + n;
    }
    out
}

impl Expr {
    /// Whether `expr` is the empty expression.
    pub fn check(expr: &Self) -> (r: bool)
        ensures
            r == (expr@ is Empty),
    {
        match expr {
            Expr::Empty => true,
            _ => false,
        }
    }
}

} // verus!
