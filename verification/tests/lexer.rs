use ecow::EcoString;
use seabun::def::{tokenize, CodePos, Token, TokenKind};

fn kinds(src: &str) -> Vec<TokenKind> {
    tokenize(src).iter().map(|t| t.kind).collect()
}

fn tok(kind: TokenKind, literal: &str, line: usize, col: usize) -> Token {
    Token { kind, literal: EcoString::from(literal), pos: CodePos(line, col) }
}

#[test]
fn declaration_tokens_and_positions() {
    let toks = tokenize("let x = 5.");
    let expected = vec![
        tok(TokenKind::Let, "let", 1, 0),
        tok(TokenKind::Word, "x", 1, 4),
        tok(TokenKind::EqSign, "=", 1, 6),
        tok(TokenKind::Num, "5", 1, 8),
        tok(TokenKind::ExprEnd, ".", 1, 9),
    ];
    assert_eq!(toks.as_slice(), expected.as_slice());
}

#[test]
fn keyword_wins_over_word_only_when_whole() {
    assert_eq!(kinds("let"), vec![TokenKind::Let]);
    assert_eq!(kinds("letter"), vec![TokenKind::Word]);
    assert_eq!(kinds("give back"), vec![TokenKind::Return, TokenKind::Return]);
    assert_eq!(kinds("elif else every"), vec![TokenKind::Elif, TokenKind::Else, TokenKind::Every]);
}

#[test]
fn boolean_words_are_literals() {
    assert_eq!(kinds("true false yes no"), vec![TokenKind::Bln; 4]);
    assert_eq!(kinds("yess"), vec![TokenKind::Word]);
}

#[test]
fn comments_are_dropped_and_docs_kept() {
    assert_eq!(kinds("; a comment\nx"), vec![TokenKind::Word]);
    let toks = tokenize("; a comment\nx");
    assert_eq!(toks[0].pos, CodePos(2, 0));
    assert_eq!(kinds(";* some doc"), vec![TokenKind::Doc]);
}

#[test]
fn symbols_take_the_longest_match() {
    assert_eq!(kinds("{{ { }} }"), vec![
        TokenKind::LDblBrace,
        TokenKind::LBrace,
        TokenKind::RDblBrace,
        TokenKind::RBrace,
    ]);
    assert_eq!(kinds("-> -"), vec![TokenKind::Arrow, TokenKind::Minus]);
    assert_eq!(kinds("¬a"), vec![TokenKind::NotSign, TokenKind::Word]);
    assert_eq!(kinds(", : ! ( ) [ ] + * / ^ % # @ ~ & | \\"), vec![
        TokenKind::Comma,
        TokenKind::Colon,
        TokenKind::Bang,
        TokenKind::LParen,
        TokenKind::RParen,
        TokenKind::LBracket,
        TokenKind::Rbracket,
        TokenKind::Plus,
        TokenKind::Star,
        TokenKind::Slash,
        TokenKind::Caret,
        TokenKind::Percent,
        TokenKind::Hash,
        TokenKind::AtSign,
        TokenKind::Tilde,
        TokenKind::Ampersand,
        TokenKind::Pipe,
        TokenKind::BackSlash,
    ]);
}

#[test]
fn literal_kinds() {
    assert_eq!(kinds("12"), vec![TokenKind::Num]);
    assert_eq!(kinds("1d5 0d103 9d"), vec![TokenKind::Dot; 3]);
    assert_eq!(kinds("\"hola\" \"\\\"\" \"\""), vec![TokenKind::Str; 3]);
    assert_eq!(kinds("<<hola>>"), vec![TokenKind::RawStr]);
    assert_eq!(kinds("<<it's \"fine\"!>>"), vec![TokenKind::RawStr]);
    assert_eq!(kinds("'c' '\\n' '\\u006F' ''"), vec![TokenKind::Chr; 4]);
    assert_eq!(kinds("foo bar_ _baz bar2 seabun"), vec![TokenKind::Word; 5]);
}

#[test]
fn raw_strings_reach_to_the_last_closing_brackets() {
    let toks = tokenize("<<a>> <<b>>");
    assert_eq!(toks.len(), 1);
    assert_eq!(toks[0].kind, TokenKind::RawStr);
    assert_eq!(toks[0].literal, EcoString::from("<<a>> <<b>>"));
}

#[test]
fn unreadable_text_is_an_error_token() {
    let toks = tokenize("$");
    assert_eq!(toks.as_slice(), [tok(TokenKind::Error, "$", 1, 0)].as_slice());
}

#[test]
fn unterminated_string_is_one_error_token() {
    let toks = tokenize("\"abc");
    assert_eq!(toks.len(), 1);
    assert_eq!(toks[0].kind, TokenKind::Error);
    assert_eq!(toks[0].literal, EcoString::from("\"abc"));
}

#[test]
fn columns_count_bytes_from_the_start_of_the_line() {
    let toks = tokenize("a\n  b");
    assert_eq!(toks[1].pos, CodePos(2, 2));
    let toks = tokenize("é x");
    assert_eq!(toks[1].pos, CodePos(1, 3));
    let toks = tokenize("a\n\nb c");
    assert_eq!(toks[1].pos, CodePos(3, 0));
    assert_eq!(toks[2].pos, CodePos(3, 2));
}

#[test]
fn token_text_is_trimmed() {
    let toks = tokenize(";* a doc   \nx");
    assert_eq!(toks[0].kind, TokenKind::Doc);
    assert_eq!(toks[0].literal, EcoString::from(";* a doc"));
    let toks = tokenize("\"ab  ");
    assert_eq!(toks[0].kind, TokenKind::Error);
    assert_eq!(toks[0].literal, EcoString::from("\"ab"));
}

#[test]
fn lines_never_go_back() {
    let toks = tokenize("a\nb c\n\n  d\te");
    let lines: Vec<usize> = toks.iter().map(|t| t.pos.0).collect();
    assert_eq!(lines, vec![1, 2, 2, 4, 4]);
    assert_eq!(toks[3].pos, CodePos(4, 2));
    assert_eq!(toks[4].pos, CodePos(4, 4));
}

#[test]
fn positions_strictly_increase() {
    let toks = tokenize("let x = 5.\n  mut y = (1 + 2).\n\n\tz");
    for w in toks.windows(2) {
        let (a, b) = (w[0].pos, w[1].pos);
        assert!(a.0 < b.0 || (a.0 == b.0 && a.1 < b.1), "{a:?} {b:?}");
    }
    assert_eq!(toks[5].pos, CodePos(2, 2));
    assert_eq!(toks.last().unwrap().pos, CodePos(4, 1));
}

#[test]
fn empty_source_has_no_tokens() {
    assert!(tokenize("").is_empty());
    assert!(tokenize("  \n\t ").is_empty());
}
