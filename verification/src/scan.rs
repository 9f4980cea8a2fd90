//! The longest text from a position that each rule of the grammar matches.
use vstd::prelude::*;
use crate::def::TokenKind;
use crate::lexer::{
    Lexeme, rule_matches, span, digits_from, is_spelled, spelling, priority, is_hex, all_hex,
    is_simple_escape, is_plain, str_tail, chr_item,
};
use crate::unicode::{
    is_white_space, white_space, is_decimal_digit, decimal_digit, is_control, control, word_char,
    word_character,
};

verus! {

/// `n` is the length of the longest text from `i` that the rule of `l`
/// matches, or 0 where it matches none.
pub open spec fn longest_for(l: Lexeme, input: Seq<char>, i: int, n: int) -> bool {
    &&& 0 <= n <= input.len() - i
    &&& n > 0 ==> rule_matches(l, span(input, i, n))
    &&& forall|m: int| n < m <= input.len() - i ==> !rule_matches(l, span(input, i, m))
}

/// The end of the run of white-space characters that starts at `from`.
fn white_run_end(chars: &[char], from: usize) -> (e: usize)
    requires
        from <= chars@.len(),
    ensures
        from <= e <= chars@.len(),
        forall|j: int| from <= j < e ==> is_white_space(#[trigger] chars@[j]),
        e < chars@.len() ==> !is_white_space(chars@[e as int]),
{
    let mut e = from;
    while e < chars.len() && white_space(chars[e])
        invariant
            from <= e <= chars@.len(),
            forall|j: int| from <= j < e ==> is_white_space(#[trigger] chars@[j]),
        decreases chars.len() - e,
    {
        e += 1;
    }
    e
}

/// The end of the run of decimal digits that starts at `from`.
fn digit_run_end(chars: &[char], from: usize) -> (e: usize)
    requires
        from <= chars@.len(),
    ensures
        from <= e <= chars@.len(),
        forall|j: int| from <= j < e ==> is_decimal_digit(#[trigger] chars@[j]),
        e < chars@.len() ==> !is_decimal_digit(chars@[e as int]),
{
    let mut e = from;
    while e < chars.len() && decimal_digit(chars[e])
        invariant
            from <= e <= chars@.len(),
            forall|j: int| from <= j < e ==> is_decimal_digit(#[trigger] chars@[j]),
        decreases chars.len() - e,
    {
        e += 1;
    }
    e
}

/// The end of the run of characters other than control characters that
/// starts at `from`.
pub fn text_run_end(chars: &[char], from: usize) -> (e: usize)
    requires
        from <= chars@.len(),
    ensures
        from <= e <= chars@.len(),
        forall|j: int| from <= j < e ==> !is_control(#[trigger] chars@[j]),
        e < chars@.len() ==> is_control(chars@[e as int]),
{
    let mut e = from;
    while e < chars.len() && !control(chars[e])
        invariant
            from <= e <= chars@.len(),
            forall|j: int| from <= j < e ==> !is_control(#[trigger] chars@[j]),
        decreases chars.len() - e,
    {
        e += 1;
    }
    e
}

/// The end of the run of word characters and decimal digits that starts at
/// `from`.
fn word_run_end(chars: &[char], from: usize) -> (e: usize)
    requires
        from <= chars@.len(),
    ensures
        from <= e <= chars@.len(),
        forall|j: int|
            from <= j < e ==> word_char(#[trigger] chars@[j]) || is_decimal_digit(chars@[j]),
        e < chars@.len() ==> !word_char(chars@[e as int]) && !is_decimal_digit(chars@[e as int]),
{
    let mut e = from;
    while e < chars.len() && (word_character(chars[e]) || decimal_digit(chars[e]))
        invariant
            from <= e <= chars@.len(),
            forall|j: int|
                from <= j < e ==> word_char(#[trigger] chars@[j]) || is_decimal_digit(chars@[j]),
        decreases chars.len() - e,
    {
        e += 1;
    }
    e
}

/// The longest run of white space from `i`.
pub fn space_longest(chars: &[char], i: usize) -> (n: usize)
    requires
        i < chars@.len(),
    ensures
        longest_for(Lexeme::Space, chars@, i as int, n as int),
{
    let e = white_run_end(chars, i);
    let n = e - i;
    assert forall|m: int| n < m <= chars@.len() - i implies !rule_matches(
        Lexeme::Space,
        span(chars@, i as int, m),
    ) by {
        assert(span(chars@, i as int, m)[n as int] == chars@[e as int]);
    }
    n
}

/// The longest word from `i`: a word character, then word characters and
/// decimal digits.
pub fn word_longest(chars: &[char], i: usize) -> (n: usize)
    requires
        i < chars@.len(),
    ensures
        longest_for(Lexeme::Tok(TokenKind::Word), chars@, i as int, n as int),
{
    if !word_character(chars[i]) {
        assert forall|m: int| 0 < m <= chars@.len() - i implies !rule_matches(
            Lexeme::Tok(TokenKind::Word),
            span(chars@, i as int, m),
        ) by {
            assert(span(chars@, i as int, m)[0] == chars@[i as int]);
        }
        return 0;
    }
    let e = word_run_end(chars, i + 1);
    let n = e - i;
    assert forall|m: int| n < m <= chars@.len() - i implies !rule_matches(
        Lexeme::Tok(TokenKind::Word),
        span(chars@, i as int, m),
    ) by {
        assert(span(chars@, i as int, m)[n as int] == chars@[e as int]);
    }
    assert(forall|j: int| 1 <= j < n ==> span(chars@, i as int, n as int)[j] == chars@[i + j]);
    n
}

/// The longest number from `i`: decimal digits.
pub fn num_longest(chars: &[char], i: usize) -> (n: usize)
    requires
        i < chars@.len(),
    ensures
        longest_for(Lexeme::Tok(TokenKind::Num), chars@, i as int, n as int),
{
    let e = digit_run_end(chars, i);
    let n = e - i;
    assert forall|m: int| n < m <= chars@.len() - i implies !rule_matches(
        Lexeme::Tok(TokenKind::Num),
        span(chars@, i as int, m),
    ) by {
        assert(span(chars@, i as int, m)[n as int] == chars@[e as int]);
    }
    assert(forall|j: int| 0 <= j < n ==> span(chars@, i as int, n as int)[j] == chars@[i + j]);
    n
}

/// The longest comment from `i`: `;`, then characters other than control
/// characters.
pub fn comment_longest(chars: &[char], i: usize) -> (n: usize)
    requires
        i < chars@.len(),
    ensures
        longest_for(Lexeme::Tok(TokenKind::Comment), chars@, i as int, n as int),
{
    if chars[i] != ';' {
        assert forall|m: int| 0 < m <= chars@.len() - i implies !rule_matches(
            Lexeme::Tok(TokenKind::Comment),
            span(chars@, i as int, m),
        ) by {
            assert(span(chars@, i as int, m)[0] == chars@[i as int]);
        }
        return 0;
    }
    let e = text_run_end(chars, i + 1);
    let n = e - i;
    assert forall|m: int| n < m <= chars@.len() - i implies !rule_matches(
        Lexeme::Tok(TokenKind::Comment),
        span(chars@, i as int, m),
    ) by {
        assert(span(chars@, i as int, m)[n as int] == chars@[e as int]);
    }
    assert(forall|j: int| 1 <= j < n ==> span(chars@, i as int, n as int)[j] == chars@[i + j]);
    n
}

/// The longest documentation comment from `i`: `;*`, then at least one
/// character other than a control character.
pub fn doc_longest(chars: &[char], i: usize) -> (n: usize)
    requires
        i < chars@.len(),
    ensures
        longest_for(Lexeme::Tok(TokenKind::Doc), chars@, i as int, n as int),
{
    if chars[i] != ';' || i + 1 >= chars.len() || chars[i + 1] != '*' {
        assert forall|m: int| 0 < m <= chars@.len() - i implies !rule_matches(
            Lexeme::Tok(TokenKind::Doc),
            span(chars@, i as int, m),
        ) by {
            assert(span(chars@, i as int, m)[0] == chars@[i as int]);
            if m >= 2 {
                assert(span(chars@, i as int, m)[1] == chars@[i + 1]);
            }
        }
        return 0;
    }
    let e = text_run_end(chars, i + 2);
    if e == i + 2 {
        assert forall|m: int| 0 < m <= chars@.len() - i implies !rule_matches(
            Lexeme::Tok(TokenKind::Doc),
            span(chars@, i as int, m),
        ) by {
            if m >= 3 {
                assert(span(chars@, i as int, m)[2] == chars@[i + 2]);
            }
        }
        return 0;
    }
    let n = e - i;
    assert forall|m: int| n < m <= chars@.len() - i implies !rule_matches(
        Lexeme::Tok(TokenKind::Doc),
        span(chars@, i as int, m),
    ) by {
        assert(span(chars@, i as int, m)[n as int] == chars@[e as int]);
    }
    assert(forall|j: int| 2 <= j < n ==> span(chars@, i as int, n as int)[j] == chars@[i + j]);
    n
}

/// The longest decimal ("dot") number from `i`: decimal digits, `d`, then
/// decimal digits again.
pub fn dot_longest(chars: &[char], i: usize) -> (n: usize)
    requires
        i < chars@.len(),
    ensures
        longest_for(Lexeme::Tok(TokenKind::Dot), chars@, i as int, n as int),
{
    let a = digit_run_end(chars, i);
    assert(!is_decimal_digit('d'));
    if a == i || a == chars.len() || chars[a] != 'd' {
        assert forall|m: int| 0 < m <= chars@.len() - i implies !rule_matches(
            Lexeme::Tok(TokenKind::Dot),
            span(chars@, i as int, m),
        ) by {
            let s = span(chars@, i as int, m);
            if rule_matches(Lexeme::Tok(TokenKind::Dot), s) {
                let d = choose|d: int|
                    1 <= d < s.len() && #[trigger] s[d] == 'd' && digits_from(s.subrange(0, d), 0)
                        && digits_from(s, d + 1);
                if d < a - i {
                    assert(s[d] == chars@[i + d]);
                } else if d > a - i {
                    assert(s.subrange(0, d)[a - i] == chars@[a as int]);
                } else {
                    assert(s[d] == chars@[a as int]);
                    assert(s.subrange(0, d)[0] == chars@[i as int]);
                }
            }
        }
        return 0;
    }
    let e = digit_run_end(chars, a + 1);
    let n = e - i;
    let ghost s = span(chars@, i as int, n as int);
    assert(s[a - i] == 'd');
    assert(digits_from(s.subrange(0, a - i), 0)) by {
        assert forall|j: int| 0 <= j < a - i implies is_decimal_digit(
            #[trigger] s.subrange(0, a - i)[j],
        ) by {
            assert(s.subrange(0, a - i)[j] == chars@[i + j]);
        }
    }
    assert(digits_from(s, a - i + 1)) by {
        assert forall|j: int| a - i + 1 <= j < s.len() implies is_decimal_digit(#[trigger] s[j]) by {
            assert(s[j] == chars@[i + j]);
        }
    }
    assert(rule_matches(Lexeme::Tok(TokenKind::Dot), s));
    assert forall|m: int| n < m <= chars@.len() - i implies !rule_matches(
        Lexeme::Tok(TokenKind::Dot),
        span(chars@, i as int, m),
    ) by {
        let t = span(chars@, i as int, m);
        if rule_matches(Lexeme::Tok(TokenKind::Dot), t) {
            let d = choose|d: int|
                1 <= d < t.len() && #[trigger] t[d] == 'd' && digits_from(t.subrange(0, d), 0)
                    && digits_from(t, d + 1);
            if d < a - i {
                assert(t[d] == chars@[i + d]);
            } else if d > a - i {
                assert(t.subrange(0, d)[a - i] == chars@[a as int]);
            } else {
                assert(t[n as int] == chars@[e as int]);
            }
        }
    }
    n
}

/// Whether `chars` holds the text `w` from index `i` on.
pub fn has_text_at(chars: &[char], i: usize, w: &[char]) -> (r: bool)
    requires
        i <= chars@.len(),
    ensures
        r == (i + w@.len() <= chars@.len() && chars@.subrange(i as int, i + w@.len()) == w@),
{
    if w.len() > chars.len() - i {
        return false;
    }
    let mut j: usize = 0;
    while j < w.len()
        invariant
            j <= w@.len(),
            i + w@.len() <= chars.len(),
            forall|k: int| 0 <= k < j ==> chars@[i + k] == w@[k],
        decreases w.len() - j,
    {
        if chars[i + j] != w[j] {
            assert(chars@.subrange(i as int, i + w@.len())[j as int] != w@[j as int]);
            return false;
        }
        j += 1;
    }
    assert(chars@.subrange(i as int, i + w@.len()) =~= w@);
    true
}

/// The length of `w` where `chars` holds it from `i`, else 0: the longest
/// text from `i` equal to `w`.
fn text_longest(chars: &[char], i: usize, w: &[char]) -> (n: usize)
    requires
        i < chars@.len(),
        w@.len() > 0,
    ensures
        0 <= n <= chars@.len() - i,
        n > 0 ==> n == w@.len() && span(chars@, i as int, n as int) == w@,
        forall|m: int| n < m <= chars@.len() - i ==> span(chars@, i as int, m) != w@,
        n == 0 ==> forall|m: int| 0 < m <= chars@.len() - i ==> span(chars@, i as int, m) != w@,
{
    if has_text_at(chars, i, w) {
        w.len()
    } else {
        0
    }
}

/// The longest text from `i` that the kind `k` spelled `w` matches.
fn spelled_text_longest(k: TokenKind, chars: &[char], i: usize, w: &[char]) -> (n: usize)
    requires
        i < chars@.len(),
        is_spelled(k),
        w@ == spelling(k),
    ensures
        longest_for(Lexeme::Tok(k), chars@, i as int, n as int),
{
    text_longest(chars, i, w)
}

/// The longest symbol of kind `k` from `i`.
fn symbol_longest(k: TokenKind, chars: &[char], i: usize) -> (n: usize)
    requires
        i < chars@.len(),
        is_spelled(k),
        priority(Lexeme::Tok(k)) >= 100,
    ensures
        longest_for(Lexeme::Tok(k), chars@, i as int, n as int),
{
    match k {
        TokenKind::ExprEnd => {
            let w: &[char] = &['.'];
            assert(w@ =~= spelling(k));
            spelled_text_longest(k, chars, i, w)
        },
        TokenKind::Comma => {
            let w: &[char] = &[','];
            assert(w@ =~= spelling(k));
            spelled_text_longest(k, chars, i, w)
        },
        TokenKind::EqSign => {
            let w: &[char] = &['='];
            assert(w@ =~= spelling(k));
            spelled_text_longest(k, chars, i, w)
        },
        TokenKind::Colon => {
            let w: &[char] = &[':'];
            assert(w@ =~= spelling(k));
            spelled_text_longest(k, chars, i, w)
        },
        TokenKind::Bang => {
            let w: &[char] = &['!'];
            assert(w@ =~= spelling(k));
            spelled_text_longest(k, chars, i, w)
        },
        TokenKind::LParen => {
            let w: &[char] = &['('];
            assert(w@ =~= spelling(k));
            spelled_text_longest(k, chars, i, w)
        },
        TokenKind::RParen => {
            let w: &[char] = &[')'];
            assert(w@ =~= spelling(k));
            spelled_text_longest(k, chars, i, w)
        },
        TokenKind::LBracket => {
            let w: &[char] = &['['];
            assert(w@ =~= spelling(k));
            spelled_text_longest(k, chars, i, w)
        },
        TokenKind::Rbracket => {
            let w: &[char] = &[']'];
            assert(w@ =~= spelling(k));
            spelled_text_longest(k, chars, i, w)
        },
        TokenKind::LBrace => {
            let w: &[char] = &['{'];
            assert(w@ =~= spelling(k));
            spelled_text_longest(k, chars, i, w)
        },
        TokenKind::RBrace => {
            let w: &[char] = &['}'];
            assert(w@ =~= spelling(k));
            spelled_text_longest(k, chars, i, w)
        },
        TokenKind::LDblBrace => {
            let w: &[char] = &['{', '{'];
            assert(w@ =~= spelling(k));
            spelled_text_longest(k, chars, i, w)
        },
        TokenKind::RDblBrace => {
            let w: &[char] = &['}', '}'];
            assert(w@ =~= spelling(k));
            spelled_text_longest(k, chars, i, w)
        },
        TokenKind::Plus => {
            let w: &[char] = &['+'];
            assert(w@ =~= spelling(k));
            spelled_text_longest(k, chars, i, w)
        },
        TokenKind::Minus => {
            let w: &[char] = &['-'];
            assert(w@ =~= spelling(k));
            spelled_text_longest(k, chars, i, w)
        },
        TokenKind::Star => {
            let w: &[char] = &['*'];
            assert(w@ =~= spelling(k));
            spelled_text_longest(k, chars, i, w)
        },
        TokenKind::Slash => {
            let w: &[char] = &['/'];
            assert(w@ =~= spelling(k));
            spelled_text_longest(k, chars, i, w)
        },
        TokenKind::Caret => {
            let w: &[char] = &['^'];
            assert(w@ =~= spelling(k));
            spelled_text_longest(k, chars, i, w)
        },
        TokenKind::Percent => {
            let w: &[char] = &['%'];
            assert(w@ =~= spelling(k));
            spelled_text_longest(k, chars, i, w)
        },
        TokenKind::Hash => {
            let w: &[char] = &['#'];
            assert(w@ =~= spelling(k));
            spelled_text_longest(k, chars, i, w)
        },
        TokenKind::AtSign => {
            let w: &[char] = &['@'];
            assert(w@ =~= spelling(k));
            spelled_text_longest(k, chars, i, w)
        },
        TokenKind::Tilde => {
            let w: &[char] = &['~'];
            assert(w@ =~= spelling(k));
            spelled_text_longest(k, chars, i, w)
        },
        TokenKind::Arrow => {
            let w: &[char] = &['-', '>'];
            assert(w@ =~= spelling(k));
            spelled_text_longest(k, chars, i, w)
        },
        TokenKind::NotSign => {
            let w: &[char] = &['\u{ac}'];
            assert(w@ =~= spelling(k));
            spelled_text_longest(k, chars, i, w)
        },
        TokenKind::Ampersand => {
            let w: &[char] = &['&'];
            assert(w@ =~= spelling(k));
            spelled_text_longest(k, chars, i, w)
        },
        TokenKind::Pipe => {
            let w: &[char] = &['|'];
            assert(w@ =~= spelling(k));
            spelled_text_longest(k, chars, i, w)
        },
        TokenKind::BackSlash => {
            let w: &[char] = &['\\'];
            assert(w@ =~= spelling(k));
            spelled_text_longest(k, chars, i, w)
        },
        _ => {
            assert(false);
            0
        },
    }
}

/// The longest keyword of kind `k` from `i`.
fn keyword_longest(k: TokenKind, chars: &[char], i: usize) -> (n: usize)
    requires
        i < chars@.len(),
        is_spelled(k),
        priority(Lexeme::Tok(k)) == 60,
    ensures
        longest_for(Lexeme::Tok(k), chars@, i as int, n as int),
{
    match k {
        TokenKind::Show => {
            let w: &[char] = &['s', 'h', 'o', 'w'];
            assert(w@ =~= spelling(k));
            spelled_text_longest(k, chars, i, w)
        },
        TokenKind::Read => {
            let w: &[char] = &['r', 'e', 'a', 'd'];
            assert(w@ =~= spelling(k));
            spelled_text_longest(k, chars, i, w)
        },
        TokenKind::As => {
            let w: &[char] = &['a', 's'];
            assert(w@ =~= spelling(k));
            spelled_text_longest(k, chars, i, w)
        },
        TokenKind::Let => {
            let w: &[char] = &['l', 'e', 't'];
            assert(w@ =~= spelling(k));
            spelled_text_longest(k, chars, i, w)
        },
        TokenKind::Mut => {
            let w: &[char] = &['m', 'u', 't'];
            assert(w@ =~= spelling(k));
            spelled_text_longest(k, chars, i, w)
        },
        TokenKind::Def => {
            let w: &[char] = &['d', 'e', 'f'];
            assert(w@ =~= spelling(k));
            spelled_text_longest(k, chars, i, w)
        },
        TokenKind::Fun => {
            let w: &[char] = &['f', 'u', 'n'];
            assert(w@ =~= spelling(k));
            spelled_text_longest(k, chars, i, w)
        },
        TokenKind::Rec => {
            let w: &[char] = &['r', 'e', 'c'];
            assert(w@ =~= spelling(k));
            spelled_text_longest(k, chars, i, w)
        },
        TokenKind::If => {
            let w: &[char] = &['i', 'f'];
            assert(w@ =~= spelling(k));
            spelled_text_longest(k, chars, i, w)
        },
        TokenKind::Elif => {
            let w: &[char] = &['e', 'l', 'i', 'f'];
            assert(w@ =~= spelling(k));
            spelled_text_longest(k, chars, i, w)
        },
        TokenKind::Else => {
            let w: &[char] = &['e', 'l', 's', 'e'];
            assert(w@ =~= spelling(k));
            spelled_text_longest(k, chars, i, w)
        },
        TokenKind::Loop => {
            let w: &[char] = &['l', 'o', 'o', 'p'];
            assert(w@ =~= spelling(k));
            spelled_text_longest(k, chars, i, w)
        },
        TokenKind::While => {
            let w: &[char] = &['w', 'h', 'i', 'l', 'e'];
            assert(w@ =~= spelling(k));
            spelled_text_longest(k, chars, i, w)
        },
        TokenKind::Every => {
            let w: &[char] = &['e', 'v', 'e', 'r', 'y'];
            assert(w@ =~= spelling(k));
            spelled_text_longest(k, chars, i, w)
        },
        TokenKind::Do => {
            let w: &[char] = &['d', 'o'];
            assert(w@ =~= spelling(k));
            spelled_text_longest(k, chars, i, w)
        },
        _ => {
            assert(false);
            0
        },
    }
}

/// The longest text from `i` that a symbol or keyword kind with one spelling
/// matches: its spelling, where it stands there.
pub fn spelled_longest(k: TokenKind, chars: &[char], i: usize) -> (n: usize)
    requires
        i < chars@.len(),
        is_spelled(k),
    ensures
        longest_for(Lexeme::Tok(k), chars@, i as int, n as int),
{
    if is_symbol(k) {
        symbol_longest(k, chars, i)
    } else {
        keyword_longest(k, chars, i)
    }
}

/// Whether `k` is a symbol kind.
fn is_symbol(k: TokenKind) -> (r: bool)
    requires
        is_spelled(k),
    ensures
        r == (priority(Lexeme::Tok(k)) >= 100),
        !r ==> priority(Lexeme::Tok(k)) == 60,
{
    match k {
        TokenKind::Show | TokenKind::Read | TokenKind::As | TokenKind::Let | TokenKind::Mut
        | TokenKind::Def | TokenKind::Fun | TokenKind::Rec | TokenKind::If | TokenKind::Elif
        | TokenKind::Else | TokenKind::Loop | TokenKind::While | TokenKind::Every
        | TokenKind::Do => false,
        _ => true,
    }
}

/// The longer of two lengths of a text equal to one of two words.
fn longer(a: usize, b: usize) -> (n: usize)
    ensures
        n == if a >= b { a } else { b },
{
    if a >= b {
        a
    } else {
        b
    }
}

/// The longest `Return` keyword from `i`: `give` or `back`.
pub fn return_longest(chars: &[char], i: usize) -> (n: usize)
    requires
        i < chars@.len(),
    ensures
        longest_for(Lexeme::Tok(TokenKind::Return), chars@, i as int, n as int),
{
    let a = text_longest(chars, i, &['g', 'i', 'v', 'e']);
    let b = text_longest(chars, i, &['b', 'a', 'c', 'k']);
    longer(a, b)
}

/// The longest boolean literal from `i`: `true`, `false`, `yes` or `no`.
pub fn bln_longest(chars: &[char], i: usize) -> (n: usize)
    requires
        i < chars@.len(),
    ensures
        longest_for(Lexeme::Tok(TokenKind::Bln), chars@, i as int, n as int),
{
    let a = text_longest(chars, i, &['t', 'r', 'u', 'e']);
    let b = text_longest(chars, i, &['f', 'a', 'l', 's', 'e']);
    let c = text_longest(chars, i, &['y', 'e', 's']);
    let d = text_longest(chars, i, &['n', 'o']);
    longer(longer(a, b), longer(c, d))
}

/// Computes `is_hex`.
pub fn hex_digit(c: char) -> (r: bool)
    ensures
        r == is_hex(c),
{
    ('0' <= c && c <= '9') || ('a' <= c && c <= 'f') || ('A' <= c && c <= 'F')
}

/// Whether the `n` characters of `chars` from `from` are all hexadecimal
/// digits (false where fewer than `n` remain).
pub fn hex_run(chars: &[char], from: usize, n: usize) -> (r: bool)
    requires
        from <= chars@.len(),
    ensures
        r == (from + n <= chars@.len() && all_hex(chars@.subrange(from as int, from + n))),
{
    if n > chars.len() - from {
        return false;
    }
    let mut j: usize = 0;
    while j < n
        invariant
            j <= n,
            from + n <= chars.len(),
            forall|k: int| 0 <= k < j ==> is_hex(#[trigger] chars@[from + k]),
        decreases n - j,
    {
        if !hex_digit(chars[from + j]) {
            assert(chars@.subrange(from as int, from + n)[j as int] == chars@[from + j]);
            return false;
        }
        j += 1;
    }
    assert forall|k: int| 0 <= k < n implies is_hex(
        #[trigger] chars@.subrange(from as int, from + n)[k],
    ) by {
        assert(chars@.subrange(from as int, from + n)[k] == chars@[from + k]);
    }
    true
}

/// Computes `is_simple_escape`.
pub fn simple_escape(c: char, quote: char) -> (r: bool)
    ensures
        r == is_simple_escape(c, quote),
{
    c == quote || c == '\\' || c == 'b' || c == 'n' || c == 'f' || c == 'r' || c == 't'
}

/// The text of `input` from `from` to `to` is what follows the opening quote
/// of a string literal.
pub open spec fn str_tail_at(input: Seq<char>, from: int, to: int) -> bool {
    str_tail(input.subrange(from, to))
}

/// One item of a string literal, `k` characters long, stands at `j`: what
/// follows it decides alone whether the text from `j` is a string's tail.
proof fn lemma_str_tail_step(input: Seq<char>, j: int, k: int, e: int)
    requires
        0 <= j,
        1 <= k,
        j + k <= e <= input.len(),
        input[j] != '"',
        input[j] == '\\' ==> k >= 2 && (is_simple_escape(input[j + 1], '"') && k == 2 || input[j
            + 1] == 'u' && k == 6 && all_hex(input.subrange(j + 2, j + 6)) || input[j + 1] == 'x'
            && k == 4 && all_hex(input.subrange(j + 2, j + 4))),
        input[j] != '\\' ==> k == 1 && is_plain(input[j], '"'),
    ensures
        str_tail_at(input, j, e) == str_tail_at(input, j + k, e),
{
    let r = input.subrange(j, e);
    assert(r.subrange(k, r.len() as int) =~= input.subrange(j + k, e));
    assert(r[0] == input[j]);
    if input[j] == '\\' {
        assert(r[1] == input[j + 1]);
        if input[j + 1] == 'u' {
            assert(r.subrange(2, 6) =~= input.subrange(j + 2, j + 6));
        }
        if input[j + 1] == 'x' {
            assert(r.subrange(2, 4) =~= input.subrange(j + 2, j + 4));
        }
    }
}

/// The longest string literal from `i`. A string literal ends at its first
/// closing quote, so there is at most one.
pub fn str_longest(chars: &[char], i: usize) -> (n: usize)
    requires
        i < chars@.len(),
    ensures
        longest_for(Lexeme::Tok(TokenKind::Str), chars@, i as int, n as int),
{
    let ghost input = chars@;
    let len = chars.len();
    assert forall|m: int| 1 <= m <= input.len() - i implies (rule_matches(
        Lexeme::Tok(TokenKind::Str),
        #[trigger] span(input, i as int, m),
    ) <==> (m >= 2 && input[i as int] == '"' && str_tail_at(input, i + 1, i + m))) by {
        let s = span(input, i as int, m);
        assert(s[0] == input[i as int]);
        assert(s.subrange(1, s.len() as int) =~= input.subrange(i + 1, i + m));
    }
    if chars[i] != '"' {
        return 0;
    }
    let mut j = i + 1;
    loop
        invariant
            input == chars@,
            len == chars@.len(),
            i < j <= len,
            input[i as int] == '"',
            forall|m: int| 1 <= m <= input.len() - i ==> (rule_matches(
                Lexeme::Tok(TokenKind::Str),
                #[trigger] span(input, i as int, m),
            ) <==> (m >= 2 && input[i as int] == '"' && str_tail_at(input, i + 1, i + m))),
            forall|e: int|
                j <= e <= len ==> #[trigger] str_tail_at(input, i + 1, e) == str_tail_at(
                    input,
                    j as int,
                    e,
                ),
            forall|e: int| i + 1 <= e < j ==> !#[trigger] str_tail_at(input, i + 1, e),
        decreases len - j,
    {
        assert(!str_tail_at(input, j as int, j as int));
        if j >= len {
            return 0;
        }
        let c = chars[j];
        if c == '"' {
            assert forall|e: int| j + 1 < e <= len implies !str_tail_at(input, j as int, e) by {
                assert(input.subrange(j as int, e)[0] == input[j as int]);
            }
            assert(str_tail_at(input, j as int, j + 1)) by {
                assert(input.subrange(j as int, j + 1)[0] == input[j as int]);
            }
            return j + 1 - i;
        }
        if c == '\\' {
            if j + 1 >= len {
                assert forall|e: int| j <= e <= len implies !str_tail_at(input, j as int, e) by {
                    if e > j {
                        assert(input.subrange(j as int, e)[0] == input[j as int]);
                    }
                }
                return 0;
            }
            let d = chars[j + 1];
            let k: usize;
            if simple_escape(d, '"') {
                k = 2;
            } else if d == 'u' && hex_run(chars, j + 2, 4) {
                k = 6;
            } else if d == 'x' && hex_run(chars, j + 2, 2) {
                k = 4;
            } else {
                assert forall|e: int| j <= e <= len implies !str_tail_at(input, j as int, e) by {
                    if e > j {
                        let r = input.subrange(j as int, e);
                        assert(r[0] == input[j as int]);
                        if r.len() >= 2 {
                            assert(r[1] == input[j + 1]);
                        }
                        if r.len() >= 6 && d == 'u' {
                            assert(r.subrange(2, 6) =~= input.subrange(j + 2, j + 6));
                        }
                        if r.len() >= 4 && d == 'x' {
                            assert(r.subrange(2, 4) =~= input.subrange(j + 2, j + 4));
                        }
                    }
                }
                return 0;
            }
            assert forall|e: int| j <= e < j + k && e <= len implies !str_tail_at(input, j as int, e) by {
                if e > j {
                    let r = input.subrange(j as int, e);
                    assert(r[0] == input[j as int]);
                    if r.len() >= 2 {
                        assert(r[1] == input[j + 1]);
                    }
                }
            }
            assert forall|e: int| j + k <= e <= len implies str_tail_at(input, j as int, e)
                == str_tail_at(input, j + k, e) by {
                lemma_str_tail_step(input, j as int, k as int, e);
            }
            j = j + k;
        } else {
            if control(c) {
                assert forall|e: int| j <= e <= len implies !str_tail_at(input, j as int, e) by {
                    if e > j {
                        assert(input.subrange(j as int, e)[0] == input[j as int]);
                    }
                }
                return 0;
            }
            assert forall|e: int| j + 1 <= e <= len implies str_tail_at(input, j as int, e)
                == str_tail_at(input, j + 1, e) by {
                lemma_str_tail_step(input, j as int, 1, e);
            }
            j = j + 1;
        }
    }
}

/// `>>` stands right before index `q`.
pub open spec fn closes_at(input: Seq<char>, q: int) -> bool {
    input[q - 2] == '>' && input[q - 1] == '>'
}

/// The longest raw string literal from `i`: `<<`, characters other than
/// control characters, and `>>` at the end, as far on as such an end stands.
pub fn raw_str_longest(chars: &[char], i: usize) -> (n: usize)
    requires
        i < chars@.len(),
    ensures
        longest_for(Lexeme::Tok(TokenKind::RawStr), chars@, i as int, n as int),
{
    let ghost input = chars@;
    if chars.len() - i <= 1 || chars[i] != '<' || chars[i + 1] != '<' {
        assert forall|m: int| 0 < m <= input.len() - i implies !rule_matches(
            Lexeme::Tok(TokenKind::RawStr),
            span(input, i as int, m),
        ) by {
            let s = span(input, i as int, m);
            assert(s[0] == input[i as int]);
            if m >= 2 {
                assert(s[1] == input[i + 1]);
            }
        }
        return 0;
    }
    let e = text_run_end(chars, i + 2);
    // A match of length `m` ends at `i + m`: no control character before
    // that end, and `>>` right before it.
    assert forall|m: int| 0 < m <= input.len() - i implies (rule_matches(
        Lexeme::Tok(TokenKind::RawStr),
        #[trigger] span(input, i as int, m),
    ) <==> (m >= 4 && i + m <= e && closes_at(input, i + m))) by {
        let s = span(input, i as int, m);
        assert(s[0] == input[i as int]);
        if m >= 2 {
            assert(s[1] == input[i + 1]);
            assert(s[m - 2] == input[i + m - 2]);
            assert(s[m - 1] == input[i + m - 1]);
        }
        if i + m > e && m >= 4 {
            assert(s[e - i] == input[e as int]);
        }
        if i + m <= e {
            assert forall|j: int| 2 <= j < s.len() implies !is_control(#[trigger] s[j]) by {
                assert(s[j] == input[i + j]);
            }
        }
    }
    let mut p = e;
    while p - i >= 4
        invariant
            input == chars@,
            i < chars@.len(),
            i + 2 <= e <= chars@.len(),
            i + 2 <= p <= e,
            forall|q: int| p < q <= e ==> !#[trigger] closes_at(input, q),
            forall|m: int| 0 < m <= input.len() - i ==> (rule_matches(
                Lexeme::Tok(TokenKind::RawStr),
                #[trigger] span(input, i as int, m),
            ) <==> (m >= 4 && i + m <= e && closes_at(input, i + m))),
        decreases p,
    {
        if chars[p - 2] == '>' && chars[p - 1] == '>' {
            return p - i;
        }
        p -= 1;
    }
    0
}

/// Whether the `m` characters of `chars` from `from` are a character
/// literal (false where fewer than `m` remain).
fn chr_at(chars: &[char], from: usize, m: usize) -> (r: bool)
    requires
        from <= chars@.len(),
        m >= 2,
    ensures
        r == (from + m <= chars@.len() && rule_matches(
            Lexeme::Tok(TokenKind::Chr),
            span(chars@, from as int, m as int),
        )),
{
    if m > chars.len() - from {
        return false;
    }
    let ghost s = span(chars@, from as int, m as int);
    let ghost inner = s.subrange(1, m - 1);
    assert(s[0] == chars@[from as int]);
    assert(s[m - 1] == chars@[from + m - 1]);
    assert(forall|j: int| 0 <= j < m - 2 ==> inner[j] == chars@[from + 1 + j]);
    if chars[from] != '\'' || chars[from + m - 1] != '\'' {
        return false;
    }
    if m == 2 {
        return true;
    }
    if m == 3 {
        let c = chars[from + 1];
        return c != '\'' && c != '\\' && !control(c);
    }
    if chars[from + 1] != '\\' {
        return false;
    }
    if m == 4 {
        return simple_escape(chars[from + 2], '\'');
    }
    if m == 6 {
        let r = chars[from + 2] == 'x' && hex_run(chars, from + 3, 2);
        assert(r ==> inner.subrange(2, 4) =~= chars@.subrange(from + 3, from + 5));
        return r;
    }
    if m == 8 {
        let r = chars[from + 2] == 'u' && hex_run(chars, from + 3, 4);
        assert(r ==> inner.subrange(2, 6) =~= chars@.subrange(from + 3, from + 7));
        return r;
    }
    false
}

/// The longest character literal from `i`. A character literal is 2, 3, 4,
/// 6 or 8 characters long.
pub fn chr_longest(chars: &[char], i: usize) -> (n: usize)
    requires
        i < chars@.len(),
    ensures
        longest_for(Lexeme::Tok(TokenKind::Chr), chars@, i as int, n as int),
{
    assert forall|m: int| #[trigger]
        rule_matches(Lexeme::Tok(TokenKind::Chr), span(chars@, i as int, m)) && 0 < m
            <= chars@.len() - i implies m == 2 || m == 3 || m == 4 || m == 6 || m == 8 by {
        let s = span(chars@, i as int, m);
        assert(chr_item(s.subrange(1, s.len() - 1)));
    }
    if chr_at(chars, i, 8) {
        8
    } else if chr_at(chars, i, 6) {
        6
    } else if chr_at(chars, i, 4) {
        4
    } else if chr_at(chars, i, 3) {
        3
    } else if chr_at(chars, i, 2) {
        2
    } else {
        0
    }
}

/// The longest text from `i` that the rule of `l` matches, or 0 where it
/// matches none.
pub fn lexeme_longest(l: Lexeme, chars: &[char], i: usize) -> (n: usize)
    requires
        i < chars@.len(),
    ensures
        longest_for(l, chars@, i as int, n as int),
{
    match l {
        Lexeme::Space => space_longest(chars, i),
        Lexeme::Tok(k) => match k {
            TokenKind::Comment => comment_longest(chars, i),
            TokenKind::Doc => doc_longest(chars, i),
            TokenKind::Num => num_longest(chars, i),
            TokenKind::Dot => dot_longest(chars, i),
            TokenKind::Str => str_longest(chars, i),
            TokenKind::RawStr => raw_str_longest(chars, i),
            TokenKind::Chr => chr_longest(chars, i),
            TokenKind::Bln => bln_longest(chars, i),
            TokenKind::Return => return_longest(chars, i),
            TokenKind::Word => word_longest(chars, i),
            TokenKind::Error => 0,
            _ => {
                assert(spelling(k).len() > 0);
                spelled_longest(k, chars, i)
            },
        },
    }
}

} // verus!
