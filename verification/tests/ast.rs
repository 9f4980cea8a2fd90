use ecow::{EcoString, EcoVec};
use seabun::aster::helper::errors::{AstError, Construct};
use seabun::aster::helper::single::{chr_of, dot_of, parse_val, str_of, to_varkind, unbun_str};
use seabun::aster::{primitive_ast, try_primitive_ast};
use seabun::def::{tokenize, BindKind, CodePos, Expr, Token, TokenKind, VarKind};

fn tok(kind: TokenKind, literal: &str, col: usize) -> Token {
    Token { kind, literal: EcoString::from(literal), pos: CodePos(1, col) }
}

fn toks(list: &[Token]) -> EcoVec<Token> {
    let mut v = EcoVec::new();
    for t in list {
        v.push(t.clone());
    }
    v
}

const HERE: CodePos = CodePos(7, 7);

fn val(list: &[Token]) -> Result<Expr, AstError> {
    parse_val(toks(list), HERE).map(|b| *b)
}

#[test]
fn no_token_is_the_empty_value() {
    assert_eq!(val(&[]), Ok(Expr::Empty));
}

#[test]
fn single_tokens_read_as_values() {
    assert_eq!(val(&[tok(TokenKind::Word, "foo", 0)]), Ok(Expr::Name(EcoString::from("foo"))));
    assert_eq!(val(&[tok(TokenKind::Num, "42", 0)]), Ok(Expr::Num(42)));
    assert_eq!(val(&[tok(TokenKind::Num, "+7", 0)]), Ok(Expr::Num(7)));
    assert_eq!(val(&[tok(TokenKind::Dot, "1d5", 0)]), Ok(Expr::Dot(EcoString::from("1.5"))));
    assert_eq!(val(&[tok(TokenKind::Dot, "9d", 0)]), Ok(Expr::Dot(EcoString::from("9."))));
    assert_eq!(val(&[tok(TokenKind::Bln, "yes", 0)]), Ok(Expr::Bln(true)));
    assert_eq!(val(&[tok(TokenKind::Bln, "true", 0)]), Ok(Expr::Bln(true)));
    assert_eq!(val(&[tok(TokenKind::Bln, "no", 0)]), Ok(Expr::Bln(false)));
    assert_eq!(val(&[tok(TokenKind::Bln, "false", 0)]), Ok(Expr::Bln(false)));
}

#[test]
fn character_literals() {
    assert_eq!(val(&[tok(TokenKind::Chr, "'a'", 0)]), Ok(Expr::Chr('a')));
    assert_eq!(val(&[tok(TokenKind::Chr, "'\\n'", 0)]), Ok(Expr::Chr('\n')));
    assert_eq!(val(&[tok(TokenKind::Chr, "'\\u006F'", 0)]), Ok(Expr::Chr('o')));
    assert_eq!(val(&[tok(TokenKind::Chr, "''", 0)]), Ok(Expr::Chr('\0')));
    assert_eq!(
        val(&[tok(TokenKind::Chr, "'\\q'", 3)]),
        Err(AstError::Malformed { what: Construct::ChrLiteral, pos: CodePos(1, 3) })
    );
}

#[test]
fn string_literals() {
    assert_eq!(val(&[tok(TokenKind::Str, "\"hola\"", 0)]), Ok(Expr::Str(EcoString::from("hola"))));
    assert_eq!(val(&[tok(TokenKind::Str, "\"a\\tb\"", 0)]), Ok(Expr::Str(EcoString::from("a\tb"))));
    assert_eq!(val(&[tok(TokenKind::Str, "\"\"", 0)]), Ok(Expr::Str(EcoString::new())));
    assert_eq!(val(&[tok(TokenKind::RawStr, "<<raw>>", 0)]), Ok(Expr::Str(EcoString::from("raw"))));
    assert_eq!(
        val(&[tok(TokenKind::RawStr, r"<<a\nb\>>>", 0)]),
        Ok(Expr::Str(EcoString::from(r"a\nb>")))
    );
    assert_eq!(val(&[tok(TokenKind::RawStr, r"<<\q\>>>", 0)]), Ok(Expr::Str(EcoString::from(r"\q>"))));
    assert_eq!(
        val(&[tok(TokenKind::Str, "\"\\q\"", 0)]),
        Err(AstError::NotA { kind: TokenKind::Str, literal: EcoString::from("\"\\q\"") })
    );
}

#[test]
fn malformed_single_values() {
    assert_eq!(
        val(&[tok(TokenKind::Num, "99999999999999999999", 2)]),
        Err(AstError::Malformed { what: Construct::NumLiteral, pos: CodePos(1, 2) })
    );
    assert_eq!(
        val(&[tok(TokenKind::Dot, "1d2d3", 2)]),
        Err(AstError::Malformed { what: Construct::DotLiteral, pos: CodePos(1, 2) })
    );
    assert_eq!(
        val(&[tok(TokenKind::Bln, "maybe", 2)]),
        Err(AstError::Malformed { what: Construct::BlnLiteral, pos: CodePos(1, 2) })
    );
    assert_eq!(
        val(&[tok(TokenKind::RParen, ")", 2)]),
        Err(AstError::Malformed { what: Construct::UnopenedExpression, pos: HERE })
    );
    assert_eq!(
        val(&[tok(TokenKind::Plus, "+", 2)]),
        Err(AstError::Malformed { what: Construct::UnimplementedExpression, pos: HERE })
    );
}

#[test]
fn several_tokens() {
    let a = tok(TokenKind::Word, "a", 0);
    let b = tok(TokenKind::Word, "b", 2);
    let five = tok(TokenKind::Num, "5", 4);
    let open = tok(TokenKind::LParen, "(", 6);
    let close = tok(TokenKind::RParen, ")", 8);
    let end = tok(TokenKind::ExprEnd, ".", 10);
    assert_eq!(val(&[a.clone(), b.clone()]), Ok(Expr::Name(EcoString::from("b"))));
    assert_eq!(val(&[five.clone(), a.clone()]), Ok(Expr::Num(5)));
    assert_eq!(val(&[a.clone(), five.clone()]), Ok(Expr::Num(5)));
    assert_eq!(val(&[five.clone(), five.clone()]), Ok(Expr::Empty));
    assert_eq!(val(&[open.clone(), close.clone()]), Ok(Expr::Empty));
    assert_eq!(val(&[a.clone(), end.clone()]), Ok(Expr::Name(EcoString::from("a"))));
    assert_eq!(
        val(&[close.clone(), close.clone()]),
        Err(AstError::Malformed { what: Construct::ParenthesizedExpression, pos: CodePos(1, 8) })
    );
    assert_eq!(val(&[open.clone(), close.clone(), close.clone()]), Err(AstError::StackUnderflow));
    assert_eq!(val(&[open.clone(), five.clone(), close.clone()]), Ok(Expr::Empty));
    assert_eq!(val(&[open.clone(), end.clone()]), Err(AstError::Unimplemented { pos: Some(HERE) }));
    assert_eq!(val(&[open.clone(), a.clone()]), Ok(Expr::Empty));
    assert_eq!(val(&[b.clone(), open.clone(), a.clone()]), Ok(Expr::Name(EcoString::from("b"))));
    assert_eq!(
        val(&[b.clone(), tok(TokenKind::Comma, ",", 3)]),
        Err(AstError::Malformed { what: Construct::UndelimitedExpression, pos: CodePos(1, 2) })
    );
    assert_eq!(
        val(&[a.clone(), tok(TokenKind::Error, "$", 5)]),
        Err(AstError::Unknown { token: EcoString::from("$"), pos: CodePos(1, 5) })
    );
}

fn num(n: isize) -> Expr {
    Expr::Num(n)
}

fn op(left: Expr, c: char, right: Expr) -> Expr {
    Expr::MathOp { left: Box::new(left), right: Box::new(right), op: c }
}

#[test]
fn parentheses_give_the_value_inside() {
    let x = tok(TokenKind::Word, "x", 9);
    let open = tok(TokenKind::LParen, "(", 8);
    let close = tok(TokenKind::RParen, ")", 10);
    assert_eq!(val(&[open.clone(), x.clone(), close.clone()]), Ok(Expr::Name(EcoString::from("x"))));
    assert_eq!(
        val(&[open.clone(), open.clone(), x.clone(), close.clone(), close.clone()]),
        Ok(Expr::Name(EcoString::from("x")))
    );
}

#[test]
fn operations_read_left_to_right() {
    let plus = tok(TokenKind::Plus, "+", 1);
    let star = tok(TokenKind::Star, "*", 1);
    let n = |s: &str| tok(TokenKind::Num, s, 0);
    let open = tok(TokenKind::LParen, "(", 0);
    let close = tok(TokenKind::RParen, ")", 0);
    assert_eq!(val(&[n("5"), plus.clone(), n("5")]), Ok(op(num(5), '+', num(5))));
    assert_eq!(
        val(&[n("1"), plus.clone(), n("2"), star.clone(), n("3")]),
        Ok(op(op(num(1), '+', num(2)), '*', num(3)))
    );
    assert_eq!(
        val(&[n("1"), star.clone(), open.clone(), n("2"), plus.clone(), n("3"), close.clone()]),
        Ok(op(num(1), '*', op(num(2), '+', num(3))))
    );
    for (kind, c) in [
        (TokenKind::Minus, '-'),
        (TokenKind::Slash, '/'),
        (TokenKind::Caret, '^'),
        (TokenKind::Percent, '%'),
    ] {
        assert_eq!(val(&[n("7"), tok(kind, "?", 1), n("2")]), Ok(op(num(7), c, num(2))));
    }
}

#[test]
fn misplaced_operators() {
    let plus = tok(TokenKind::Plus, "+", 3);
    let a = tok(TokenKind::Word, "a", 0);
    let b = tok(TokenKind::Word, "b", 5);
    let undelimited = |col| Err(AstError::Malformed { what: Construct::UndelimitedExpression, pos: CodePos(1, col) });
    assert_eq!(val(&[plus.clone(), a.clone()]), undelimited(3));
    assert_eq!(val(&[a.clone(), plus.clone()]), undelimited(3));
    assert_eq!(val(&[a.clone(), plus.clone(), tok(TokenKind::Plus, "+", 4), b.clone()]), undelimited(4));
    assert_eq!(
        val(&[tok(TokenKind::LParen, "(", 1), a.clone(), plus.clone(), tok(TokenKind::RParen, ")", 6)]),
        undelimited(3)
    );
    assert_eq!(val(&[a.clone(), plus.clone(), tok(TokenKind::ExprEnd, ".", 6)]), undelimited(3));
}

#[test]
fn quotes_come_off() {
    let pos = CodePos(1, 1);
    assert_eq!(unbun_str(TokenKind::Str, &EcoString::from("\"ab\""), pos), Ok(EcoString::from("ab")));
    assert_eq!(unbun_str(TokenKind::RawStr, &EcoString::from("<<ab>>"), pos), Ok(EcoString::from("ab")));
    assert_eq!(unbun_str(TokenKind::RawStr, &EcoString::from("éé"), pos), Ok(EcoString::new()));
    assert_eq!(
        unbun_str(TokenKind::Str, &EcoString::from("é"), pos),
        Err(AstError::Malformed { what: Construct::StringLiteral, pos })
    );
    assert_eq!(
        unbun_str(TokenKind::RawStr, &EcoString::from("aé"), pos),
        Err(AstError::Malformed { what: Construct::RawStringLiteral, pos })
    );
    assert_eq!(
        unbun_str(TokenKind::Word, &EcoString::from("w"), pos),
        Err(AstError::NotA { kind: TokenKind::Word, literal: EcoString::from("w") })
    );
}

#[test]
fn kinds_after_a_name() {
    let pos = CodePos(3, 3);
    assert_eq!(to_varkind(toks(&[]), pos), Ok(VarKind::Unknown));
    assert_eq!(to_varkind(toks(&[tok(TokenKind::Word, "num", 0)]), pos), Ok(VarKind::Num));
    assert_eq!(to_varkind(toks(&[tok(TokenKind::Word, "dot", 0)]), pos), Ok(VarKind::Dot));
    assert_eq!(to_varkind(toks(&[tok(TokenKind::Word, "chr", 0)]), pos), Ok(VarKind::Chr));
    assert_eq!(to_varkind(toks(&[tok(TokenKind::Word, "str", 0)]), pos), Ok(VarKind::Str));
    assert_eq!(to_varkind(toks(&[tok(TokenKind::Word, "bln", 0)]), pos), Ok(VarKind::Bln));
    assert_eq!(to_varkind(toks(&[tok(TokenKind::Word, "thing", 0)]), pos), Ok(VarKind::Unknown));
    assert_eq!(
        to_varkind(toks(&[tok(TokenKind::LBracket, "[", 4), tok(TokenKind::Word, "num", 5)]), pos),
        Err(AstError::Unimplemented { pos: Some(CodePos(1, 4)) })
    );
    assert_eq!(
        to_varkind(toks(&[tok(TokenKind::Word, "a", 4), tok(TokenKind::Word, "b", 5)]), pos),
        Err(AstError::Unimplemented { pos: Some(pos) })
    );
    assert_eq!(
        seabun::aster::to_varkind(toks(&[tok(TokenKind::Word, "a", 4), tok(TokenKind::Word, "b", 5)]), pos),
        Err(AstError::Unimplemented { pos: None })
    );
    assert_eq!(seabun::aster::to_varkind(toks(&[tok(TokenKind::Word, "num", 4)]), pos), Ok(VarKind::Num));
}

#[test]
fn values_after_unescaping() {
    let pos = CodePos(2, 2);
    assert_eq!(chr_of(Some(String::from("xy")), pos), Ok(Expr::Chr('x')));
    assert_eq!(chr_of(Some(String::new()), pos), Ok(Expr::Chr('\0')));
    assert_eq!(chr_of(None, pos), Err(AstError::Malformed { what: Construct::ChrLiteral, pos }));
    let lit = EcoString::from("\"x\"");
    assert_eq!(str_of(Some(String::from("x")), TokenKind::Str, &lit), Ok(Expr::Str(EcoString::from("x"))));
    assert_eq!(str_of(None, TokenKind::Str, &lit), Err(AstError::NotA { kind: TokenKind::Str, literal: lit.clone() }));
    assert_eq!(dot_of(EcoString::from("1.5"), pos), Ok(Expr::Dot(EcoString::from("1.5"))));
    assert_eq!(dot_of(EcoString::from("1.5e3"), pos), Ok(Expr::Dot(EcoString::from("1.5e3"))));
    assert_eq!(dot_of(EcoString::from("1.2.3"), pos), Err(AstError::Malformed { what: Construct::DotLiteral, pos }));
}

fn bind(id: &str, kind: BindKind, holds: VarKind, v: Expr) -> Expr {
    Expr::Bind { id: EcoString::from(id), kind: (kind, holds), val: Box::new(v) }
}

#[test]
fn declarations_become_bindings() {
    let ast = primitive_ast(tokenize("let x = 5.")).unwrap();
    assert_eq!(ast.as_slice(), [bind("x", BindKind::Value, VarKind::Unknown, Expr::Num(5))].as_slice());
    let ast = primitive_ast(tokenize("mut y num = 3. def t = u.")).unwrap();
    assert_eq!(
        ast.as_slice(),
        [
            bind("y", BindKind::MutValue, VarKind::Num, Expr::Num(3)),
            bind("t", BindKind::Define, VarKind::Unknown, Expr::Name(EcoString::from("u"))),
        ]
        .as_slice()
    );
    let ast = primitive_ast(tokenize("let s str = \"hi\".")).unwrap();
    assert_eq!(ast.as_slice(), [bind("s", BindKind::Value, VarKind::Str, Expr::Str(EcoString::from("hi")))].as_slice());
}

#[test]
fn other_tokens_are_passed_over() {
    let ast = primitive_ast(tokenize("show 1. ; note\nlet a = b.")).unwrap();
    assert_eq!(ast.as_slice(), [bind("a", BindKind::Value, VarKind::Unknown, Expr::Name(EcoString::from("b")))].as_slice());
    assert!(primitive_ast(tokenize("")).unwrap().is_empty());
}

#[test]
fn malformed_declarations() {
    assert_eq!(
        primitive_ast(tokenize("let = 5.")),
        Err(AstError::Malformed { what: Construct::Declaration, pos: CodePos(1, 0) })
    );
    assert_eq!(
        primitive_ast(tokenize("  let x.")),
        Err(AstError::Malformed { what: Construct::Declaration, pos: CodePos(1, 2) })
    );
    assert_eq!(
        primitive_ast(tokenize("let x [ num ] = 1.")),
        Err(AstError::Unimplemented { pos: None })
    );
    assert_eq!(
        primitive_ast(tokenize("$")),
        Err(AstError::Unknown { token: EcoString::from("$"), pos: CodePos(1, 0) })
    );
}

#[test]
fn rebinding_and_operations() {
    let ast = primitive_ast(tokenize("a = 2.")).unwrap();
    assert_eq!(
        ast.as_slice(),
        [Expr::ReBind { id: EcoString::from("a"), val: Box::new(num(2)) }].as_slice()
    );
    let ast = primitive_ast(tokenize("let x = 5 + 5.")).unwrap();
    assert_eq!(ast.as_slice(), [bind("x", BindKind::Value, VarKind::Unknown, op(num(5), '+', num(5)))].as_slice());
    let ast = primitive_ast(tokenize("let x = a b.")).unwrap();
    assert_eq!(ast.as_slice(), [bind("x", BindKind::Value, VarKind::Unknown, Expr::Name(EcoString::from("b")))].as_slice());
    let ast = primitive_ast(tokenize("let y = (x). y = y * 2.")).unwrap();
    assert_eq!(
        ast.as_slice(),
        [
            bind("y", BindKind::Value, VarKind::Unknown, Expr::Name(EcoString::from("x"))),
            Expr::ReBind {
                id: EcoString::from("y"),
                val: Box::new(op(Expr::Name(EcoString::from("y")), '*', num(2))),
            },
        ]
        .as_slice()
    );
    assert_eq!(
        primitive_ast(tokenize("a = 1 +.")),
        Err(AstError::Malformed { what: Construct::UndelimitedExpression, pos: CodePos(1, 6) })
    );
}

#[test]
fn a_trailing_name_would_panic() {
    assert_eq!(try_primitive_ast(tokenize("let x = 5. y")), None);
    assert_eq!(
        try_primitive_ast(tokenize("let x = 5.")),
        Some(Ok(toks_expr(&[bind("x", BindKind::Value, VarKind::Unknown, Expr::Num(5))])))
    );
}

#[test]
fn a_name_inside_the_text_is_passed_over() {
    assert_eq!(
        try_primitive_ast(tokenize("let x = 5. y.")),
        Some(Ok(toks_expr(&[bind("x", BindKind::Value, VarKind::Unknown, Expr::Num(5))])))
    );
    assert_eq!(try_primitive_ast(tokenize("y")), None);
}

fn toks_expr(list: &[Expr]) -> EcoVec<Expr> {
    let mut v = EcoVec::new();
    for e in list {
        v.push(e.clone());
    }
    v
}

#[test]
fn empty_check() {
    assert!(Expr::check(&Expr::Empty));
    assert!(!Expr::check(&Expr::Num(0)));
}
