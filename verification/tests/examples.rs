use ecow::EcoString;
use seabun::aster::primitive_ast;
use seabun::def::{tokenize, BindKind, Expr, TokenKind, VarKind};

fn kinds(src: &str) -> Vec<TokenKind> {
    tokenize(src).iter().map(|t| t.kind).collect()
}

#[test]
fn absolutely_nothing() {
    assert_eq!(kinds("main."), vec![TokenKind::Word, TokenKind::ExprEnd]);
    assert!(primitive_ast(tokenize("main.")).unwrap().is_empty());
}

#[test]
fn hello_world() {
    let src = "main show \"hello, world!\\n\".";
    assert_eq!(kinds(src), vec![TokenKind::Word, TokenKind::Show, TokenKind::Str, TokenKind::ExprEnd]);
    assert_eq!(tokenize(src)[2].literal, EcoString::from("\"hello, world!\\n\""));
}

#[test]
fn hello_world_v2() {
    let src = "main {\n    let hello = \"hello, \".\n    let world = \"world!\\n\".\n    show hello, world.\n}.";
    assert_eq!(
        kinds(src),
        vec![
            TokenKind::Word,
            TokenKind::LBrace,
            TokenKind::Let,
            TokenKind::Word,
            TokenKind::EqSign,
            TokenKind::Str,
            TokenKind::ExprEnd,
            TokenKind::Let,
            TokenKind::Word,
            TokenKind::EqSign,
            TokenKind::Str,
            TokenKind::ExprEnd,
            TokenKind::Show,
            TokenKind::Word,
            TokenKind::Comma,
            TokenKind::Word,
            TokenKind::ExprEnd,
            TokenKind::RBrace,
            TokenKind::ExprEnd,
        ]
    );
    let ast = primitive_ast(tokenize(src)).unwrap();
    let expected = vec![
        Expr::Bind {
            id: EcoString::from("hello"),
            kind: (BindKind::Value, VarKind::Unknown),
            val: Box::new(Expr::Str(EcoString::from("hello, "))),
        },
        Expr::Bind {
            id: EcoString::from("world"),
            kind: (BindKind::Value, VarKind::Unknown),
            val: Box::new(Expr::Str(EcoString::from("world!\n"))),
        },
    ];
    assert_eq!(ast.as_slice(), expected.as_slice());
}

#[test]
fn itoa() {
    let src = "; \"as str\" on numeric values ALWAYS acts as a conversion\nmain show 123 as str.";
    assert_eq!(
        kinds(src),
        vec![
            TokenKind::Word,
            TokenKind::Show,
            TokenKind::Num,
            TokenKind::As,
            TokenKind::Word,
            TokenKind::ExprEnd,
        ]
    );
}
