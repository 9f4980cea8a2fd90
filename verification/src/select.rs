//! Choosing the rule that lexes the text at a position.
use vstd::prelude::*;
use crate::def::TokenKind;
use crate::lexer::{Lexeme, rule_matches, span, priority, is_longest, wins, lexes, spelling, is_spelled,
    is_return_word, digits_from,
};
use crate::unicode::is_decimal_digit;
use crate::scan::lexeme_longest;

verus! {

/// How many rules the grammar has: one per token kind, and whitespace.
pub const RULE_COUNT: usize = 54;

/// The rules in a fixed order: whitespace, then the token kinds.
pub open spec fn rule_at(k: int) -> Lexeme {
    if k == 0 {
        Lexeme::Space
    } else if k == 1 {
        Lexeme::Tok(TokenKind::Comment)
    } else if k == 2 {
        Lexeme::Tok(TokenKind::Doc)
    } else if k == 3 {
        Lexeme::Tok(TokenKind::ExprEnd)
    } else if k == 4 {
        Lexeme::Tok(TokenKind::Comma)
    } else if k == 5 {
        Lexeme::Tok(TokenKind::EqSign)
    } else if k == 6 {
        Lexeme::Tok(TokenKind::Colon)
    } else if k == 7 {
        Lexeme::Tok(TokenKind::Bang)
    } else if k == 8 {
        Lexeme::Tok(TokenKind::LParen)
    } else if k == 9 {
        Lexeme::Tok(TokenKind::RParen)
    } else if k == 10 {
        Lexeme::Tok(TokenKind::LBracket)
    } else if k == 11 {
        Lexeme::Tok(TokenKind::Rbracket)
    } else if k == 12 {
        Lexeme::Tok(TokenKind::LBrace)
    } else if k == 13 {
        Lexeme::Tok(TokenKind::RBrace)
    } else if k == 14 {
        Lexeme::Tok(TokenKind::LDblBrace)
    } else if k == 15 {
        Lexeme::Tok(TokenKind::RDblBrace)
    } else if k == 16 {
        Lexeme::Tok(TokenKind::Plus)
    } else if k == 17 {
        Lexeme::Tok(TokenKind::Minus)
    } else if k == 18 {
        Lexeme::Tok(TokenKind::Star)
    } else if k == 19 {
        Lexeme::Tok(TokenKind::Slash)
    } else if k == 20 {
        Lexeme::Tok(TokenKind::Caret)
    } else if k == 21 {
        Lexeme::Tok(TokenKind::Percent)
    } else if k == 22 {
        Lexeme::Tok(TokenKind::Hash)
    } else if k == 23 {
        Lexeme::Tok(TokenKind::AtSign)
    } else if k == 24 {
        Lexeme::Tok(TokenKind::Tilde)
    } else if k == 25 {
        Lexeme::Tok(TokenKind::Arrow)
    } else if k == 26 {
        Lexeme::Tok(TokenKind::NotSign)
    } else if k == 27 {
        Lexeme::Tok(TokenKind::Ampersand)
    } else if k == 28 {
        Lexeme::Tok(TokenKind::Pipe)
    } else if k == 29 {
        Lexeme::Tok(TokenKind::BackSlash)
    } else if k == 30 {
        Lexeme::Tok(TokenKind::Show)
    } else if k == 31 {
        Lexeme::Tok(TokenKind::Read)
    } else if k == 32 {
        Lexeme::Tok(TokenKind::As)
    } else if k == 33 {
        Lexeme::Tok(TokenKind::Let)
    } else if k == 34 {
        Lexeme::Tok(TokenKind::Mut)
    } else if k == 35 {
        Lexeme::Tok(TokenKind::Def)
    } else if k == 36 {
        Lexeme::Tok(TokenKind::Fun)
    } else if k == 37 {
        Lexeme::Tok(TokenKind::Return)
    } else if k == 38 {
        Lexeme::Tok(TokenKind::Rec)
    } else if k == 39 {
        Lexeme::Tok(TokenKind::If)
    } else if k == 40 {
        Lexeme::Tok(TokenKind::Elif)
    } else if k == 41 {
        Lexeme::Tok(TokenKind::Else)
    } else if k == 42 {
        Lexeme::Tok(TokenKind::Loop)
    } else if k == 43 {
        Lexeme::Tok(TokenKind::While)
    } else if k == 44 {
        Lexeme::Tok(TokenKind::Every)
    } else if k == 45 {
        Lexeme::Tok(TokenKind::Do)
    } else if k == 46 {
        Lexeme::Tok(TokenKind::Num)
    } else if k == 47 {
        Lexeme::Tok(TokenKind::Dot)
    } else if k == 48 {
        Lexeme::Tok(TokenKind::Str)
    } else if k == 49 {
        Lexeme::Tok(TokenKind::RawStr)
    } else if k == 50 {
        Lexeme::Tok(TokenKind::Chr)
    } else if k == 51 {
        Lexeme::Tok(TokenKind::Bln)
    } else if k == 52 {
        Lexeme::Tok(TokenKind::Word)
    } else {
        Lexeme::Tok(TokenKind::Error)
    }
}

/// Where `l` stands in `rule_at`'s order.
pub open spec fn rule_index(l: Lexeme) -> int {
    match l {
        Lexeme::Space => 0,
        Lexeme::Tok(k) => match k {
            TokenKind::Comment => 1,
            TokenKind::Doc => 2,
            TokenKind::ExprEnd => 3,
            TokenKind::Comma => 4,
            TokenKind::EqSign => 5,
            TokenKind::Colon => 6,
            TokenKind::Bang => 7,
            TokenKind::LParen => 8,
            TokenKind::RParen => 9,
            TokenKind::LBracket => 10,
            TokenKind::Rbracket => 11,
            TokenKind::LBrace => 12,
            TokenKind::RBrace => 13,
            TokenKind::LDblBrace => 14,
            TokenKind::RDblBrace => 15,
            TokenKind::Plus => 16,
            TokenKind::Minus => 17,
            TokenKind::Star => 18,
            TokenKind::Slash => 19,
            TokenKind::Caret => 20,
            TokenKind::Percent => 21,
            TokenKind::Hash => 22,
            TokenKind::AtSign => 23,
            TokenKind::Tilde => 24,
            TokenKind::Arrow => 25,
            TokenKind::NotSign => 26,
            TokenKind::Ampersand => 27,
            TokenKind::Pipe => 28,
            TokenKind::BackSlash => 29,
            TokenKind::Show => 30,
            TokenKind::Read => 31,
            TokenKind::As => 32,
            TokenKind::Let => 33,
            TokenKind::Mut => 34,
            TokenKind::Def => 35,
            TokenKind::Fun => 36,
            TokenKind::Return => 37,
            TokenKind::Rec => 38,
            TokenKind::If => 39,
            TokenKind::Elif => 40,
            TokenKind::Else => 41,
            TokenKind::Loop => 42,
            TokenKind::While => 43,
            TokenKind::Every => 44,
            TokenKind::Do => 45,
            TokenKind::Num => 46,
            TokenKind::Dot => 47,
            TokenKind::Str => 48,
            TokenKind::RawStr => 49,
            TokenKind::Chr => 50,
            TokenKind::Bln => 51,
            TokenKind::Word => 52,
            TokenKind::Error => 53,
        },
    }
}

/// Every rule stands in the order, at its index.
proof fn lemma_rule_index(l: Lexeme)
    ensures
        0 <= rule_index(l) < RULE_COUNT,
        rule_at(rule_index(l)) == l,
{
}

/// Computes `rule_at`.
fn nth_rule(k: usize) -> (l: Lexeme)
    requires
        k < RULE_COUNT,
    ensures
        l == rule_at(k as int),
{
    match k {
        0 => Lexeme::Space,
        1 => Lexeme::Tok(TokenKind::Comment),
        2 => Lexeme::Tok(TokenKind::Doc),
        3 => Lexeme::Tok(TokenKind::ExprEnd),
        4 => Lexeme::Tok(TokenKind::Comma),
        5 => Lexeme::Tok(TokenKind::EqSign),
        6 => Lexeme::Tok(TokenKind::Colon),
        7 => Lexeme::Tok(TokenKind::Bang),
        8 => Lexeme::Tok(TokenKind::LParen),
        9 => Lexeme::Tok(TokenKind::RParen),
        10 => Lexeme::Tok(TokenKind::LBracket),
        11 => Lexeme::Tok(TokenKind::Rbracket),
        12 => Lexeme::Tok(TokenKind::LBrace),
        13 => Lexeme::Tok(TokenKind::RBrace),
        14 => Lexeme::Tok(TokenKind::LDblBrace),
        15 => Lexeme::Tok(TokenKind::RDblBrace),
        16 => Lexeme::Tok(TokenKind::Plus),
        17 => Lexeme::Tok(TokenKind::Minus),
        18 => Lexeme::Tok(TokenKind::Star),
        19 => Lexeme::Tok(TokenKind::Slash),
        20 => Lexeme::Tok(TokenKind::Caret),
        21 => Lexeme::Tok(TokenKind::Percent),
        22 => Lexeme::Tok(TokenKind::Hash),
        23 => Lexeme::Tok(TokenKind::AtSign),
        24 => Lexeme::Tok(TokenKind::Tilde),
        25 => Lexeme::Tok(TokenKind::Arrow),
        26 => Lexeme::Tok(TokenKind::NotSign),
        27 => Lexeme::Tok(TokenKind::Ampersand),
        28 => Lexeme::Tok(TokenKind::Pipe),
        29 => Lexeme::Tok(TokenKind::BackSlash),
        30 => Lexeme::Tok(TokenKind::Show),
        31 => Lexeme::Tok(TokenKind::Read),
        32 => Lexeme::Tok(TokenKind::As),
        33 => Lexeme::Tok(TokenKind::Let),
        34 => Lexeme::Tok(TokenKind::Mut),
        35 => Lexeme::Tok(TokenKind::Def),
        36 => Lexeme::Tok(TokenKind::Fun),
        37 => Lexeme::Tok(TokenKind::Return),
        38 => Lexeme::Tok(TokenKind::Rec),
        39 => Lexeme::Tok(TokenKind::If),
        40 => Lexeme::Tok(TokenKind::Elif),
        41 => Lexeme::Tok(TokenKind::Else),
        42 => Lexeme::Tok(TokenKind::Loop),
        43 => Lexeme::Tok(TokenKind::While),
        44 => Lexeme::Tok(TokenKind::Every),
        45 => Lexeme::Tok(TokenKind::Do),
        46 => Lexeme::Tok(TokenKind::Num),
        47 => Lexeme::Tok(TokenKind::Dot),
        48 => Lexeme::Tok(TokenKind::Str),
        49 => Lexeme::Tok(TokenKind::RawStr),
        50 => Lexeme::Tok(TokenKind::Chr),
        51 => Lexeme::Tok(TokenKind::Bln),
        52 => Lexeme::Tok(TokenKind::Word),
        _ => Lexeme::Tok(TokenKind::Error),
    }
}

/// Computes `priority`.
fn priority_of(l: Lexeme) -> (p: u8)
    ensures
        p == priority(l),
{
    match l {
        Lexeme::Space => 2,
        Lexeme::Tok(k) => match k {
            TokenKind::Doc => 120,
            TokenKind::Comment => 110,
            TokenKind::LDblBrace | TokenKind::RDblBrace => 101,
            TokenKind::Show | TokenKind::Read | TokenKind::As | TokenKind::Let | TokenKind::Mut
            | TokenKind::Def | TokenKind::Fun | TokenKind::Return | TokenKind::Rec | TokenKind::If
            | TokenKind::Elif | TokenKind::Else | TokenKind::Loop | TokenKind::While
            | TokenKind::Every | TokenKind::Do => 60,
            TokenKind::Num | TokenKind::Dot | TokenKind::Str | TokenKind::RawStr | TokenKind::Chr
            | TokenKind::Bln => 40,
            TokenKind::Word => 20,
            TokenKind::Error => 0,
            _ => 100,
        },
    }
}

/// The kind that a symbol or keyword spelling spells, `Return` for `give`
/// and `back` (the inverse of `spelling`).
pub open spec fn spelled_kind(s: Seq<char>) -> TokenKind {
    if s.len() == 1 {
        if s[0] == '.' {
            TokenKind::ExprEnd
        } else if s[0] == ',' {
            TokenKind::Comma
        } else if s[0] == '=' {
            TokenKind::EqSign
        } else if s[0] == ':' {
            TokenKind::Colon
        } else if s[0] == '!' {
            TokenKind::Bang
        } else if s[0] == '(' {
            TokenKind::LParen
        } else if s[0] == ')' {
            TokenKind::RParen
        } else if s[0] == '[' {
            TokenKind::LBracket
        } else if s[0] == ']' {
            TokenKind::Rbracket
        } else if s[0] == '{' {
            TokenKind::LBrace
        } else if s[0] == '}' {
            TokenKind::RBrace
        } else if s[0] == '+' {
            TokenKind::Plus
        } else if s[0] == '-' {
            TokenKind::Minus
        } else if s[0] == '*' {
            TokenKind::Star
        } else if s[0] == '/' {
            TokenKind::Slash
        } else if s[0] == '^' {
            TokenKind::Caret
        } else if s[0] == '%' {
            TokenKind::Percent
        } else if s[0] == '#' {
            TokenKind::Hash
        } else if s[0] == '@' {
            TokenKind::AtSign
        } else if s[0] == '~' {
            TokenKind::Tilde
        } else if s[0] == '\u{ac}' {
            TokenKind::NotSign
        } else if s[0] == '&' {
            TokenKind::Ampersand
        } else if s[0] == '|' {
            TokenKind::Pipe
        } else {
            TokenKind::BackSlash
        }
    } else if s.len() == 2 {
        if s[0] == '{' {
            TokenKind::LDblBrace
        } else if s[0] == '}' {
            TokenKind::RDblBrace
        } else if s[0] == '-' {
            TokenKind::Arrow
        } else if s[0] == 'a' {
            TokenKind::As
        } else if s[0] == 'i' {
            TokenKind::If
        } else {
            TokenKind::Do
        }
    } else if s.len() == 3 {
        if s[0] == 'l' {
            TokenKind::Let
        } else if s[0] == 'm' {
            TokenKind::Mut
        } else if s[0] == 'd' {
            TokenKind::Def
        } else if s[0] == 'f' {
            TokenKind::Fun
        } else {
            TokenKind::Rec
        }
    } else if s.len() == 4 {
        if s[0] == 's' {
            TokenKind::Show
        } else if s[0] == 'r' {
            TokenKind::Read
        } else if s[0] == 'l' {
            TokenKind::Loop
        } else if s[0] == 'g' || s[0] == 'b' {
            TokenKind::Return
        } else if s[2] == 'i' {
            TokenKind::Elif
        } else {
            TokenKind::Else
        }
    } else if s[0] == 'w' {
        TokenKind::While
    } else {
        TokenKind::Every
    }
}

/// `spelled_kind` undoes `spelling`.
proof fn lemma_spelled_kind(k: TokenKind)
    requires
        is_spelled(k),
    ensures
        spelled_kind(spelling(k)) == k,
{
}

/// Two different rules of the same priority never match the same text.
pub proof fn lemma_same_priority_disjoint(l1: Lexeme, l2: Lexeme, s: Seq<char>)
    requires
        l1 != l2,
        priority(l1) == priority(l2),
    ensures
        !(rule_matches(l1, s) && rule_matches(l2, s)),
{
    if rule_matches(l1, s) && rule_matches(l2, s) {
        match (l1, l2) {
            (Lexeme::Tok(k1), Lexeme::Tok(k2)) => {
                if is_spelled(k1) && is_spelled(k2) {
                    lemma_spelled_kind(k1);
                    lemma_spelled_kind(k2);
                    assert(s == spelling(k1));
                    assert(s == spelling(k2));
                } else if is_spelled(k1) || is_spelled(k2) {
                    let k = if is_spelled(k1) { k1 } else { k2 };
                    lemma_spelled_kind(k);
                    assert(s == spelling(k));
                    assert(priority(Lexeme::Tok(k)) == 60 || priority(Lexeme::Tok(k)) >= 100);
                    assert(k1 == TokenKind::Return || k2 == TokenKind::Return);
                    assert(is_return_word(s));
                    assert(s.len() == 4);
                } else {
                    lemma_first_chars(k1, s);
                    lemma_first_chars(k2, s);
                }
            },
            _ => {},
        }
    }
}

/// What the first character of a text is that a kind of priority 40 matches.
proof fn lemma_first_chars(k: TokenKind, s: Seq<char>)
    requires
        priority(Lexeme::Tok(k)) == 40,
        rule_matches(Lexeme::Tok(k), s),
    ensures
        s.len() >= 1,
        k == TokenKind::Num ==> is_decimal_digit(s[0]) && digits_from(s, 0),
        k == TokenKind::Dot ==> is_decimal_digit(s[0]) && !digits_from(s, 0),
        k == TokenKind::Str ==> s[0] == '"',
        k == TokenKind::RawStr ==> s[0] == '<',
        k == TokenKind::Chr ==> s[0] == '\'',
        k == TokenKind::Bln ==> s[0] == 't' || s[0] == 'f' || s[0] == 'y' || s[0] == 'n',
{
    if k == TokenKind::Dot {
        let d = choose|d: int|
            1 <= d < s.len() && #[trigger] s[d] == 'd' && digits_from(s.subrange(0, d), 0)
                && digits_from(s, d + 1);
        assert(s.subrange(0, d)[0] == s[0]);
        assert(!is_decimal_digit('d'));
    }
}

/// Of the rules among the first `k` of the order that match `s`, one of
/// the highest priority; none where none of them matches.
proof fn lemma_best_among(s: Seq<char>, k: int) -> (b: Option<Lexeme>)
    requires
        0 <= k <= RULE_COUNT,
    ensures
        b matches Some(l) ==> rule_matches(l, s),
        forall|j: int|
            0 <= j < k && #[trigger] rule_matches(rule_at(j), s) ==> b is Some && priority(
                rule_at(j),
            ) <= priority(b->Some_0),
    decreases k,
{
    if k == 0 {
        None
    } else {
        let prev = lemma_best_among(s, k - 1);
        let l = rule_at(k - 1);
        if rule_matches(l, s) {
            match prev {
                None => Some(l),
                Some(p) => if priority(l) > priority(p) {
                    Some(l)
                } else {
                    Some(p)
                },
            }
        } else {
            prev
        }
    }
}

/// Where some rule matches a text, some rule wins it.
pub proof fn lemma_winner_exists(s: Seq<char>)
    requires
        exists|l: Lexeme| rule_matches(l, s),
    ensures
        exists|l: Lexeme| wins(l, s),
{
    let l0 = choose|l: Lexeme| rule_matches(l, s);
    lemma_rule_index(l0);
    assert(rule_matches(rule_at(rule_index(l0)), s));
    let b = lemma_best_among(s, RULE_COUNT as int);
    let w = b->Some_0;
    assert forall|l2: Lexeme| l2 != w && #[trigger] rule_matches(l2, s) implies priority(l2) < priority(
        w,
    ) by {
        lemma_rule_index(l2);
        assert(rule_matches(rule_at(rule_index(l2)), s));
        if priority(l2) == priority(w) {
            lemma_same_priority_disjoint(l2, w, s);
        }
    }
    assert(wins(w, s));
}

/// The length of the longest text from `i` that some rule matches, and the
/// rule that wins it; length 0 where no rule matches any text from `i`.
pub fn longest_rule(chars: &[char], i: usize) -> (res: (usize, Lexeme))
    requires
        i < chars@.len(),
    ensures
        res.0 == 0 ==> forall|l: Lexeme, m: int|
            1 <= m <= chars@.len() - i ==> !#[trigger] rule_matches(l, span(chars@, i as int, m)),
        res.0 > 0 ==> is_longest(chars@, i as int, res.0 as int) && wins(
            res.1,
            span(chars@, i as int, res.0 as int),
        ),
{
    let ghost input = chars@;
    let mut best_n: usize = 0;
    let mut best = Lexeme::Space;
    let mut k: usize = 0;
    while k < RULE_COUNT
        invariant
            input == chars@,
            i < input.len(),
            k <= RULE_COUNT,
            best_n <= input.len() - i,
            best_n > 0 ==> rule_matches(best, span(input, i as int, best_n as int)),
            forall|j: int, m: int|
                0 <= j < k && best_n < m <= input.len() - i ==> !#[trigger] rule_matches(
                    rule_at(j),
                    span(input, i as int, m),
                ),
            forall|j: int|
                0 <= j < k && best_n > 0 && rule_at(j) != best && #[trigger] rule_matches(
                    rule_at(j),
                    span(input, i as int, best_n as int),
                ) ==> priority(rule_at(j)) < priority(best),
        decreases RULE_COUNT - k,
    {
        let l = nth_rule(k);
        let n = lexeme_longest(l, chars, i);
        let ghost old_best = best;
        let ghost old_n = best_n;
        let pl = priority_of(l);
        let pb = priority_of(best);
        if n > best_n || (n == best_n && n > 0 && pl > pb) {
            best_n = n;
            best = l;
        } else if n == best_n && n > 0 && l != best && pl == pb {
            proof {
                lemma_same_priority_disjoint(l, best, span(input, i as int, n as int));
            }
        }
        assert forall|j: int, m: int|
            0 <= j < k + 1 && best_n < m <= input.len() - i implies !#[trigger] rule_matches(
                rule_at(j),
                span(input, i as int, m),
            ) by {
            if j == k {
                assert(rule_at(j) == l);
            }
        }
        assert forall|j: int|
            0 <= j < k + 1 && best_n > 0 && rule_at(j) != best && #[trigger] rule_matches(
                rule_at(j),
                span(input, i as int, best_n as int),
            ) implies priority(rule_at(j)) < priority(best) by {
            if j == k {
                assert(rule_at(j) == l);
                if n < best_n {
                    assert(!rule_matches(l, span(input, i as int, best_n as int)));
                } else if pl == pb {
                    lemma_same_priority_disjoint(l, best, span(input, i as int, n as int));
                }
            } else if best_n != old_n {
                assert(old_n < best_n);
            } else if best != old_best {
                assert(priority(old_best) < priority(l));
                if rule_at(j) != old_best {
                    assert(priority(rule_at(j)) < priority(old_best));
                }
            }
        }
        k += 1;
    }
    assert forall|l2: Lexeme, m: int|
        best_n < m <= input.len() - i implies !#[trigger] rule_matches(l2, span(input, i as int, m)) by {
        lemma_rule_index(l2);
        assert(rule_at(rule_index(l2)) == l2);
    }
    if best_n > 0 {
        assert forall|m: int| best_n < m <= input.len() - i implies !lexes(input, i as int, m) by {
            if lexes(input, i as int, m) {
                let l2 = choose|l2: Lexeme| #[trigger] rule_matches(l2, span(input, i as int, m));
                lemma_rule_index(l2);
            }
        }
        assert forall|l2: Lexeme|
            l2 != best && #[trigger] rule_matches(l2, span(input, i as int, best_n as int)) implies priority(
            l2) < priority(best) by {
            lemma_rule_index(l2);
            assert(rule_at(rule_index(l2)) == l2);
        }
    }
    (best_n, best)
}

} // verus!
