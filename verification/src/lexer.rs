//! The lexer's grammar and its longest-match rule.
//!
//! Each token kind is a regular language over characters (`rule_matches`), and so
//! is the whitespace that lexing skips. At each position the lexer takes the
//! longest prefix that some rule matches; of the rules that match that prefix
//! the one with the highest priority wins (`wins`). Where no rule matches any
//! prefix, the lexer reports an error token that reaches as far as some rule
//! could still have continued, and at least one character (`error_len`).
use vstd::prelude::*;
use crate::def::{TokenKind, TokenView, CodePos};
use crate::unicode::{is_white_space, is_decimal_digit, is_control, word_char};

verus! {

/// What the lexer can recognise at a position: skipped whitespace, or a token.
#[derive(Clone, Copy, Debug, PartialEq, Eq, Structural)]
pub enum Lexeme {
    Space,
    Tok(TokenKind),
}

/// The priority with which a rule wins over others that match the same text.
pub open spec fn priority(l: Lexeme) -> int {
    match l {
        Lexeme::Space => 2,
        Lexeme::Tok(k) => match k {
            TokenKind::Doc => 120,
            TokenKind::Comment => 110,
            TokenKind::LDblBrace | TokenKind::RDblBrace => 101,
            TokenKind::Show | TokenKind::Read | TokenKind::As | TokenKind::Let | TokenKind::Mut
            | TokenKind::Def | TokenKind::Fun | TokenKind::Return | TokenKind::Rec | TokenKind::If
            | TokenKind::Elif | TokenKind::Else | TokenKind::Loop | TokenKind::While
            | TokenKind::Every | TokenKind::Do => 60,
            TokenKind::Num | TokenKind::Dot | TokenKind::Str | TokenKind::RawStr | TokenKind::Chr
            | TokenKind::Bln => 40,
            TokenKind::Word => 20,
            TokenKind::Error => 0,
            _ => 100,
        },
    }
}

/// The one spelling of a symbol or keyword kind; empty for the other kinds.
pub open spec fn spelling(k: TokenKind) -> Seq<char> {
    match k {
        TokenKind::ExprEnd => seq!['.'],
        TokenKind::Comma => seq![','],
        TokenKind::EqSign => seq!['='],
        TokenKind::Colon => seq![':'],
        TokenKind::Bang => seq!['!'],
        TokenKind::LParen => seq!['('],
        TokenKind::RParen => seq![')'],
        TokenKind::LBracket => seq!['['],
        TokenKind::Rbracket => seq![']'],
        TokenKind::LBrace => seq!['{'],
        TokenKind::RBrace => seq!['}'],
        TokenKind::LDblBrace => seq!['{', '{'],
        TokenKind::RDblBrace => seq!['}', '}'],
        TokenKind::Plus => seq!['+'],
        TokenKind::Minus => seq!['-'],
        TokenKind::Star => seq!['*'],
        TokenKind::Slash => seq!['/'],
        TokenKind::Caret => seq!['^'],
        TokenKind::Percent => seq!['%'],
        TokenKind::Hash => seq!['#'],
        TokenKind::AtSign => seq!['@'],
        TokenKind::Tilde => seq!['~'],
        TokenKind::Arrow => seq!['-', '>'],
        TokenKind::NotSign => seq!['\u{ac}'],
        TokenKind::Ampersand => seq!['&'],
        TokenKind::Pipe => seq!['|'],
        TokenKind::BackSlash => seq!['\\'],
        TokenKind::Show => seq!['s', 'h', 'o', 'w'],
        TokenKind::Read => seq!['r', 'e', 'a', 'd'],
        TokenKind::As => seq!['a', 's'],
        TokenKind::Let => seq!['l', 'e', 't'],
        TokenKind::Mut => seq!['m', 'u', 't'],
        TokenKind::Def => seq!['d', 'e', 'f'],
        TokenKind::Fun => seq!['f', 'u', 'n'],
        TokenKind::Rec => seq!['r', 'e', 'c'],
        TokenKind::If => seq!['i', 'f'],
        TokenKind::Elif => seq!['e', 'l', 'i', 'f'],
        TokenKind::Else => seq!['e', 'l', 's', 'e'],
        TokenKind::Loop => seq!['l', 'o', 'o', 'p'],
        TokenKind::While => seq!['w', 'h', 'i', 'l', 'e'],
        TokenKind::Every => seq!['e', 'v', 'e', 'r', 'y'],
        TokenKind::Do => seq!['d', 'o'],
        _ => Seq::empty(),
    }
}

/// Whether `k` is spelled one way only (a symbol or a keyword but `Return`).
pub open spec fn is_spelled(k: TokenKind) -> bool {
    spelling(k).len() > 0
}

/// The keyword `Return`: `give` or `back`.
pub open spec fn is_return_word(s: Seq<char>) -> bool {
    s == seq!['g', 'i', 'v', 'e'] || s == seq!['b', 'a', 'c', 'k']
}

/// A boolean literal: `true`, `false`, `yes` or `no`.
pub open spec fn is_bln_word(s: Seq<char>) -> bool {
    ||| s == seq!['t', 'r', 'u', 'e']
    ||| s == seq!['f', 'a', 'l', 's', 'e']
    ||| s == seq!['y', 'e', 's']
    ||| s == seq!['n', 'o']
}

/// An ASCII hexadecimal digit.
pub open spec fn is_hex(c: char) -> bool {
    ('0' <= c && c <= '9') || ('a' <= c && c <= 'f') || ('A' <= c && c <= 'F')
}

/// Every character of `s` is a hexadecimal digit.
pub open spec fn all_hex(s: Seq<char>) -> bool {
    forall|j: int| 0 <= j < s.len() ==> is_hex(#[trigger] s[j])
}

/// Every character of `s` from index `from` on is not a control character.
pub open spec fn no_control_from(s: Seq<char>, from: int) -> bool {
    forall|j: int| from <= j < s.len() ==> !is_control(#[trigger] s[j])
}

/// Every character of `s` from index `from` on is a decimal digit.
pub open spec fn digits_from(s: Seq<char>, from: int) -> bool {
    forall|j: int| from <= j < s.len() ==> is_decimal_digit(#[trigger] s[j])
}

/// The characters that may follow a backslash in a string (`"`) or character
/// (`'`) literal, besides `u` and `x`.
pub open spec fn is_simple_escape(c: char, quote: char) -> bool {
    c == quote || c == '\\' || c == 'b' || c == 'n' || c == 'f' || c == 'r' || c == 't'
}

/// A character that stands for itself in a quoted literal.
pub open spec fn is_plain(c: char, quote: char) -> bool {
    c != quote && c != '\\' && !is_control(c)
}

/// What follows the opening quote of a string literal: items, then the
/// closing quote, and nothing after it. An item is a plain character, or a
/// backslash with a simple escape, `u` and four hexadecimal digits, or `x`
/// and two.
pub open spec fn str_tail(r: Seq<char>) -> bool
    decreases r.len(),
{
    if r.len() == 0 {
        false
    } else if r[0] == '"' {
        r.len() == 1
    } else if r[0] == '\\' {
        if r.len() < 2 {
            false
        } else if is_simple_escape(r[1], '"') {
            str_tail(r.subrange(2, r.len() as int))
        } else if r[1] == 'u' {
            r.len() >= 6 && all_hex(r.subrange(2, 6)) && str_tail(r.subrange(6, r.len() as int))
        } else if r[1] == 'x' {
            r.len() >= 4 && all_hex(r.subrange(2, 4)) && str_tail(r.subrange(4, r.len() as int))
        } else {
            false
        }
    } else {
        is_plain(r[0], '"') && str_tail(r.subrange(1, r.len() as int))
    }
}

/// What stands between the quotes of a character literal: nothing, a plain
/// character, or one escape.
pub open spec fn chr_item(m: Seq<char>) -> bool {
    ||| m.len() == 0
    ||| m.len() == 1 && is_plain(m[0], '\'')
    ||| m.len() == 2 && m[0] == '\\' && is_simple_escape(m[1], '\'')
    ||| m.len() == 6 && m[0] == '\\' && m[1] == 'u' && all_hex(m.subrange(2, 6))
    ||| m.len() == 4 && m[0] == '\\' && m[1] == 'x' && all_hex(m.subrange(2, 4))
}

/// Whether the rule of `l` matches the whole of `s`.
pub open spec fn rule_matches(l: Lexeme, s: Seq<char>) -> bool {
    match l {
        Lexeme::Space => s.len() >= 1 && forall|j: int|
            0 <= j < s.len() ==> is_white_space(#[trigger] s[j]),
        Lexeme::Tok(k) => match k {
            TokenKind::Comment => s.len() >= 1 && s[0] == ';' && no_control_from(s, 1),
            TokenKind::Doc => s.len() >= 3 && s[0] == ';' && s[1] == '*' && no_control_from(s, 2),
            TokenKind::Num => s.len() >= 1 && digits_from(s, 0),
            TokenKind::Dot => exists|d: int|
                1 <= d < s.len() && #[trigger] s[d] == 'd' && digits_from(s.subrange(0, d), 0)
                    && digits_from(s, d + 1),
            TokenKind::Str => s.len() >= 2 && s[0] == '"' && str_tail(s.subrange(1, s.len() as int)),
            TokenKind::RawStr => s.len() >= 4 && s[0] == '<' && s[1] == '<' && s[s.len() - 2] == '>'
                && s[s.len() - 1] == '>' && no_control_from(s, 2),
            TokenKind::Chr => s.len() >= 2 && s[0] == '\'' && s[s.len() - 1] == '\'' && chr_item(
                s.subrange(1, s.len() - 1),
            ),
            TokenKind::Bln => is_bln_word(s),
            TokenKind::Return => is_return_word(s),
            TokenKind::Word => s.len() >= 1 && word_char(s[0]) && forall|j: int|
                1 <= j < s.len() ==> word_char(#[trigger] s[j]) || is_decimal_digit(s[j]),
            TokenKind::Error => false,
            _ => is_spelled(k) && s == spelling(k),
        },
    }
}

/// The `n` characters of `input` from index `i`.
pub open spec fn span(input: Seq<char>, i: int, n: int) -> Seq<char> {
    input.subrange(i, i + n)
}

/// Whether some rule matches the `n` characters of `input` from `i`.
pub open spec fn lexes(input: Seq<char>, i: int, n: int) -> bool {
    exists|l: Lexeme| #[trigger] rule_matches(l, span(input, i, n))
}

/// `n` is the length of the longest text from `i` that some rule matches.
pub open spec fn is_longest(input: Seq<char>, i: int, n: int) -> bool {
    &&& 1 <= n <= input.len() - i
    &&& lexes(input, i, n)
    &&& forall|m: int| n < m <= input.len() - i ==> !lexes(input, i, m)
}

/// `l` matches `s`, and every other rule that matches `s` has a lower
/// priority.
pub open spec fn wins(l: Lexeme, s: Seq<char>) -> bool {
    &&& rule_matches(l, s)
    &&& forall|l2: Lexeme| l2 != l && #[trigger] rule_matches(l2, s) ==> priority(l2) < priority(l)
}

/// Some rule matches a text that begins with the `n` characters of `input`
/// from `i`: lexing could still have gone on after reading them.
pub open spec fn can_continue(input: Seq<char>, i: int, n: int) -> bool {
    exists|l: Lexeme, t: Seq<char>| #[trigger] rule_matches(l, span(input, i, n) + t)
}

/// `n` is the length of an error token at `i`, where no rule matches any text
/// from `i`: the longest stretch after which lexing could still have gone
/// on, and at least one character.
pub open spec fn is_error_len(input: Seq<char>, i: int, n: int) -> bool {
    &&& 1 <= n <= input.len() - i
    &&& n == 1 || can_continue(input, i, n)
    &&& forall|m: int| n < m <= input.len() - i ==> !can_continue(input, i, m)
}

/// The length of the text that lexing takes at `i`: the longest text that
/// some rule matches, or else the length of the error token.
pub open spec fn step_len(input: Seq<char>, i: int) -> int {
    if exists|n: int| is_longest(input, i, n) {
        choose|n: int| is_longest(input, i, n)
    } else if exists|n: int| is_error_len(input, i, n) {
        choose|n: int| is_error_len(input, i, n)
    } else {
        1
    }
}

/// The rule that lexes the text at `i`, or `None` where it is an error.
pub open spec fn step_rule(input: Seq<char>, i: int) -> Option<Lexeme> {
    if exists|n: int| is_longest(input, i, n) {
        Some(choose|l: Lexeme| wins(l, span(input, i, step_len(input, i))))
    } else {
        None
    }
}

/// How many newline characters `s` holds.
pub open spec fn newlines(s: Seq<char>) -> int
    decreases s.len(),
{
    if s.len() == 0 {
        0
    } else {
        newlines(s.drop_last()) + if s.last() == '\n' { 1int } else { 0 }
    }
}

/// The index of the last newline in `s`, or -1 where it holds none.
pub open spec fn last_newline(s: Seq<char>) -> int
    decreases s.len(),
{
    if s.len() == 0 {
        -1
    } else if s.last() == '\n' {
        s.len() - 1
    } else {
        last_newline(s.drop_last())
    }
}

/// The last newline of a text lies inside it.
pub proof fn lemma_last_newline_range(s: Seq<char>)
    ensures
        -1 <= last_newline(s) < s.len(),
        last_newline(s) >= 0 ==> s[last_newline(s)] == '\n',
    decreases s.len(),
{
    if s.len() > 0 && s.last() != '\n' {
        lemma_last_newline_range(s.drop_last());
    }
}

/// How many bytes `c` takes in UTF-8.
pub open spec fn utf8_width(c: char) -> int {
    if (c as u32) < 0x80 {
        1
    } else if (c as u32) < 0x800 {
        2
    } else if (c as u32) < 0x10000 {
        3
    } else {
        4
    }
}

/// How many bytes `s` takes in UTF-8.
pub open spec fn byte_len(s: Seq<char>) -> int
    decreases s.len(),
{
    if s.len() == 0 {
        0
    } else {
        byte_len(s.drop_last()) + utf8_width(s.last())
    }
}

/// `s` without the white-space characters at its start.
pub open spec fn trim_start(s: Seq<char>) -> Seq<char>
    decreases s.len(),
{
    if s.len() > 0 && is_white_space(s[0]) {
        trim_start(s.drop_first())
    } else {
        s
    }
}

/// `s` without the white-space characters at its end.
pub open spec fn trim_end(s: Seq<char>) -> Seq<char>
    decreases s.len(),
{
    if s.len() > 0 && is_white_space(s.last()) {
        trim_end(s.drop_last())
    } else {
        s
    }
}

/// `s` without white space at either end (what `str::trim` gives).
pub open spec fn trim(s: Seq<char>) -> Seq<char> {
    trim_end(trim_start(s))
}

/// The token kind of the text at `i`: the winning rule's kind, or `Error`.
pub open spec fn step_kind(input: Seq<char>, i: int) -> TokenKind {
    match step_rule(input, i) {
        Some(Lexeme::Tok(k)) => k,
        _ => TokenKind::Error,
    }
}

/// The tokens from index `i` on, where `lines` newlines have been skipped so
/// far and the current line starts at byte `line_start`.
///
/// White space is skipped, and each newline in it starts a new line, which
/// starts right after that newline. Comments are dropped. Every other text
/// becomes a token: its kind, its text without surrounding white space, its
/// line (from 1) and its column: how many bytes into its line it starts.
pub open spec fn lex_from(input: Seq<char>, i: int, lines: int, line_start: int) -> Seq<
    TokenView,
>
    decreases input.len() - i,
{
    if i < 0 || i >= input.len() {
        Seq::empty()
    } else {
        let n = step_len(input, i);
        let text = span(input, i, n);
        if step_rule(input, i) == Some(Lexeme::Space) {
            let nl = newlines(text);
            lex_from(
                input,
                i + n,
                lines + nl,
                if last_newline(text) >= 0 {
                    byte_len(input.subrange(0, i + last_newline(text) + 1))
                } else {
                    line_start
                },
            )
        } else if step_kind(input, i) == TokenKind::Comment {
            lex_from(input, i + n, lines, line_start)
        } else {
            seq![
                TokenView {
                    kind: step_kind(input, i),
                    literal: trim(text),
                    pos: CodePos(
                        (lines + 1) as usize,
                        (byte_len(input.subrange(0, i)) - line_start) as usize,
                    ),
                },
            ] + lex_from(input, i + n, lines, line_start)
        }
    }
}

/// There is one longest length at a position: where `n` is it, lexing
/// takes `n` characters there.
pub proof fn lemma_longest_unique(input: Seq<char>, i: int, n: int)
    requires
        is_longest(input, i, n),
    ensures
        step_len(input, i) == n,
{
    let m = choose|m: int| is_longest(input, i, m);
    if m < n {
        assert(!lexes(input, i, n));
    } else if n < m {
        assert(!lexes(input, i, m));
    }
}

/// There is one error length at a position where no rule matches: where
/// `n` is it, lexing takes `n` characters there.
pub proof fn lemma_error_unique(input: Seq<char>, i: int, n: int)
    requires
        is_error_len(input, i, n),
        !exists|m: int| is_longest(input, i, m),
    ensures
        step_len(input, i) == n,
{
    let m = choose|m: int| is_error_len(input, i, m);
    if m < n {
        assert(!can_continue(input, i, n));
    } else if n < m {
        assert(!can_continue(input, i, m));
    }
}

/// At most one rule wins a text.
pub proof fn lemma_wins_unique(l: Lexeme, s: Seq<char>)
    requires
        wins(l, s),
    ensures
        (choose|l2: Lexeme| wins(l2, s)) == l,
{
    let l2 = choose|l2: Lexeme| wins(l2, s);
    if l2 != l {
        assert(priority(l2) < priority(l));
        assert(priority(l) < priority(l2));
    }
}

/// The tokens of a whole source text.
pub open spec fn lexed(input: Seq<char>) -> Seq<TokenView> {
    lex_from(input, 0, 0, 0)
}

/// Lexing takes at least one character at a position inside the text, and
/// no more than are left.
pub proof fn lemma_step_len_range(input: Seq<char>, i: int)
    requires
        0 <= i < input.len(),
    ensures
        1 <= step_len(input, i) <= input.len() - i,
{
    if exists|n: int| is_longest(input, i, n) {
        let n = choose|n: int| is_longest(input, i, n);
        assert(is_longest(input, i, n));
    } else if exists|n: int| is_error_len(input, i, n) {
        let n = choose|n: int| is_error_len(input, i, n);
        assert(is_error_len(input, i, n));
    }
}

/// From any position on, lexing yields no comment, every token's line is at
/// least one more than the newlines counted so far, and lines never go back.
proof fn lemma_lex_from_lines(input: Seq<char>, i: int, lines: int, line_start: int)
    requires
        0 <= lines <= i,
    ensures
        forall|k: int|
            #![trigger lex_from(input, i, lines, line_start)[k]]
            0 <= k < lex_from(input, i, lines, line_start).len() ==> {
                &&& lex_from(input, i, lines, line_start)[k].kind != TokenKind::Comment
                &&& input.len() < usize::MAX ==> lines + 1 <= lex_from(input, i, lines, line_start)[k].pos.0
                &&& trim(lex_from(input, i, lines, line_start)[k].literal) == lex_from(
                    input,
                    i,
                    lines,
                    line_start,
                )[k].literal
            },
        input.len() < usize::MAX ==> forall|j: int, k: int|
            0 <= j <= k < lex_from(input, i, lines, line_start).len() ==> #[trigger] lex_from(
                input,
                i,
                lines,
                line_start,
            )[j].pos.0 <= #[trigger] lex_from(input, i, lines, line_start)[k].pos.0,
    decreases input.len() - i,
{
    if 0 <= i < input.len() {
        lemma_step_len_range(input, i);
        let n = step_len(input, i);
        let text = span(input, i, n);
        if step_rule(input, i) == Some(Lexeme::Space) {
            let nl = newlines(text);
            crate::text::lemma_newlines_bound(text);
            let ls2 = if last_newline(text) >= 0 {
                byte_len(input.subrange(0, i + last_newline(text) + 1))
            } else {
                line_start
            };
            lemma_lex_from_lines(input, i + n, lines + nl, ls2);
        } else if step_kind(input, i) == TokenKind::Comment {
            lemma_lex_from_lines(input, i + n, lines, line_start);
        } else {
            lemma_lex_from_lines(input, i + n, lines, line_start);
            crate::text::lemma_trim_idempotent(text);
            let rest = lex_from(input, i + n, lines, line_start);
            let all = lex_from(input, i, lines, line_start);
            assert(all.len() == rest.len() + 1);
            assert forall|k: int| 1 <= k < all.len() implies all[k] == rest[k - 1] by {}
        }
    }
}

/// Every token's text is trimmed: it neither starts nor ends with white
/// space.
pub proof fn lemma_lexed_trimmed(input: Seq<char>)
    ensures
        forall|k: int| 0 <= k < lexed(input).len() ==> trim((#[trigger] lexed(input)[k]).literal)
            == lexed(input)[k].literal,
{
    lemma_lex_from_lines(input, 0, 0, 0);
}

/// Comments never reach the token stream: no token of a text is a comment.
pub proof fn lemma_lexed_no_comments(input: Seq<char>)
    ensures
        forall|k: int| 0 <= k < lexed(input).len() ==> (#[trigger] lexed(input)[k]).kind
            != TokenKind::Comment,
{
    lemma_lex_from_lines(input, 0, 0, 0);
}

/// Lines start at 1 and never go back: every token's line is at least 1, and
/// a later token's line is at least an earlier one's.
pub proof fn lemma_lexed_lines_ordered(input: Seq<char>)
    requires
        input.len() < usize::MAX,
    ensures
        forall|k: int| 0 <= k < lexed(input).len() ==> 1 <= (#[trigger] lexed(input)[k]).pos.0,
        forall|j: int, k: int|
            0 <= j <= k < lexed(input).len() ==> (#[trigger] lexed(input)[j]).pos.0 <= (
            #[trigger] lexed(input)[k]).pos.0,
{
    lemma_lex_from_lines(input, 0, 0, 0);
}

/// A text whose last newline lies inside it holds a newline.
proof fn lemma_last_newline_counts(s: Seq<char>)
    ensures
        last_newline(s) >= 0 ==> newlines(s) >= 1,
    decreases s.len(),
{
    if s.len() > 0 {
        lemma_last_newline_counts(s.drop_last());
        crate::text::lemma_newlines_bound(s.drop_last());
    }
}

/// Position `a` comes before position `b`: on an earlier line, or on the
/// same line at a smaller column.
pub open spec fn pos_before(a: CodePos, b: CodePos) -> bool {
    a.0 < b.0 || (a.0 == b.0 && a.1 < b.1)
}

/// From any position on, every token lies on a later line, or on the
/// current line no earlier than the current byte; and each token's position
/// comes before the next one's.
proof fn lemma_lex_from_order(input: Seq<char>, i: int, lines: int, line_start: int)
    requires
        0 <= i <= input.len(),
        0 <= lines <= i,
        0 <= line_start <= byte_len(input.subrange(0, i)),
        input.len() < usize::MAX,
        byte_len(input) <= usize::MAX,
    ensures
        forall|k: int|
            #![trigger lex_from(input, i, lines, line_start)[k]]
            0 <= k < lex_from(input, i, lines, line_start).len() ==> {
                ||| lex_from(input, i, lines, line_start)[k].pos.0 > lines + 1
                ||| lex_from(input, i, lines, line_start)[k].pos.0 == lines + 1 && lex_from(
                    input,
                    i,
                    lines,
                    line_start,
                )[k].pos.1 >= byte_len(input.subrange(0, i)) - line_start
            },
        forall|j: int, k: int|
            0 <= j < k < lex_from(input, i, lines, line_start).len() ==> pos_before(
                #[trigger] lex_from(input, i, lines, line_start)[j].pos,
                #[trigger] lex_from(input, i, lines, line_start)[k].pos,
            ),
    decreases input.len() - i,
{
    if i < input.len() {
        lemma_step_len_range(input, i);
        let n = step_len(input, i);
        let text = span(input, i, n);
        crate::text::lemma_byte_len_prefix(input, i + n, input.len() as int);
        assert(input.subrange(0, input.len() as int) =~= input);
        crate::text::lemma_byte_len_increasing(input, i, i + n);
        crate::text::lemma_byte_len_prefix(input, i, input.len() as int);
        if step_rule(input, i) == Some(Lexeme::Space) {
            let nl = newlines(text);
            crate::text::lemma_newlines_bound(text);
            lemma_last_newline_range(text);
            lemma_last_newline_counts(text);
            if last_newline(text) >= 0 {
                crate::text::lemma_byte_len_prefix(input, i + last_newline(text) + 1, i + n);
                crate::text::lemma_byte_len_nonneg(input.subrange(0, i + last_newline(text) + 1));
            }
            let ls2 = if last_newline(text) >= 0 {
                byte_len(input.subrange(0, i + last_newline(text) + 1))
            } else {
                line_start
            };
            lemma_lex_from_order(input, i + n, lines + nl, ls2);
            assert(lex_from(input, i, lines, line_start) == lex_from(input, i + n, lines + nl, ls2));
        } else if step_kind(input, i) == TokenKind::Comment {
            lemma_lex_from_order(input, i + n, lines, line_start);
            assert(lex_from(input, i, lines, line_start) == lex_from(
                input,
                i + n,
                lines,
                line_start,
            ));
        } else {
            lemma_lex_from_order(input, i + n, lines, line_start);
            let rest = lex_from(input, i + n, lines, line_start);
            let all = lex_from(input, i, lines, line_start);
            assert(all.len() == rest.len() + 1);
            assert(all[0].pos == CodePos(
                (lines + 1) as usize,
                (byte_len(input.subrange(0, i)) - line_start) as usize,
            ));
            assert forall|k: int| 1 <= k < all.len() implies all[k] == rest[k - 1] by {}
            assert forall|k: int| 1 <= k < all.len() implies pos_before(all[0].pos, all[k].pos) by {
                assert(all[k] == rest[k - 1]);
            }
            assert forall|j: int, k: int| 0 <= j < k < all.len() implies pos_before(
                #[trigger] all[j].pos,
                #[trigger] all[k].pos,
            ) by {
                if j > 0 {
                    assert(all[j] == rest[j - 1]);
                    assert(all[k] == rest[k - 1]);
                }
            }
        }
    }
}

/// Positions strictly increase: each token's position comes before the
/// next one's, on an earlier line or further along the same line.
pub proof fn lemma_lexed_positions_increase(input: Seq<char>)
    requires
        input.len() < usize::MAX,
        byte_len(input) <= usize::MAX,
    ensures
        forall|j: int, k: int|
            0 <= j < k < lexed(input).len() ==> pos_before(
                #[trigger] lexed(input)[j].pos,
                #[trigger] lexed(input)[k].pos,
            ),
{
    assert(input.subrange(0, 0) =~= Seq::<char>::empty());
    lemma_lex_from_order(input, 0, 0, 0);
}


/// A text that starts with a tab, line feed, vertical tab, form feed,
/// carriage return or space, where that character is not a word character,
/// is matched by no token rule.
proof fn lemma_space_start_no_token(s: Seq<char>, k: TokenKind)
    requires
        s.len() >= 1,
        0x9 <= s[0] as u32 <= 0xD || s[0] == ' ',
        !word_char(s[0]),
    ensures
        !rule_matches(Lexeme::Tok(k), s),
{
    if rule_matches(Lexeme::Tok(k), s) {
        match k {
            TokenKind::Dot => {
                let d = choose|d: int|
                    1 <= d < s.len() && #[trigger] s[d] == 'd' && digits_from(s.subrange(0, d), 0)
                        && digits_from(s, d + 1);
                assert(s.subrange(0, d)[0] == s[0]);
            },
            TokenKind::Num => {
                assert(is_decimal_digit(s[0]));
            },
            TokenKind::Bln => {
                assert(s[0] == 't' || s[0] == 'f' || s[0] == 'y' || s[0] == 'n');
            },
            TokenKind::Return => {
                assert(s[0] == 'g' || s[0] == 'b');
            },
            _ => {
                if is_spelled(k) {
                    assert(s[0] == spelling(k)[0]);
                }
            },
        }
    }
}

/// Every tab, line feed, vertical tab, form feed, carriage return and
/// space is white space: the white-space rule matches any nonempty run of
/// them.
pub proof fn lemma_ascii_white_space_matches(s: Seq<char>)
    requires
        s.len() >= 1,
        forall|j: int| 0 <= j < s.len() ==> 0x9 <= (#[trigger] s[j]) as u32 <= 0xD || s[j] == ' ',
    ensures
        rule_matches(Lexeme::Space, s),
{
}

/// Text made only of tabs, line feeds, vertical tabs, form feeds, carriage
/// returns and spaces is white space, which lexing skips: it gives no token
/// at all. (The one premise beyond that is that its first character is not
/// a word character, which the word class's source shows of every ASCII
/// character but letters, digits and the underscore.)
pub proof fn lemma_white_space_is_skipped(s: Seq<char>)
    requires
        forall|j: int| 0 <= j < s.len() ==> 0x9 <= (#[trigger] s[j]) as u32 <= 0xD || s[j] == ' ',
        s.len() > 0 ==> !word_char(s[0]),
    ensures
        lexed(s) == Seq::<TokenView>::empty(),
{
    if s.len() > 0 {
        let n = s.len() as int;
        assert(span(s, 0, n) =~= s);
        assert(rule_matches(Lexeme::Space, s));
        assert(lexes(s, 0, n));
        assert(is_longest(s, 0, n));
        lemma_longest_unique(s, 0, n);
        assert forall|l2: Lexeme| l2 != Lexeme::Space && #[trigger] rule_matches(l2, s) implies priority(
            l2,
        ) < priority(Lexeme::Space) by {
            if let Lexeme::Tok(k) = l2 {
                lemma_space_start_no_token(s, k);
            }
        }
        assert(wins(Lexeme::Space, s));
        lemma_wins_unique(Lexeme::Space, s);
        assert(step_rule(s, 0) == Some(Lexeme::Space));
        let text = span(s, 0, n);
        let ls = if last_newline(text) >= 0 {
            byte_len(s.subrange(0, last_newline(text) + 1))
        } else {
            0
        };
        assert(lex_from(s, n, newlines(text), ls) =~= Seq::<TokenView>::empty());
        assert(lexed(s) == lex_from(s, n, newlines(text), ls));
    }
}

/// Plain characters before the rest of a string literal do not change
/// whether that rest is well formed.
proof fn lemma_plain_then_tail(x: Seq<char>, r: Seq<char>)
    requires
        forall|j: int| 0 <= j < x.len() ==> is_plain(#[trigger] x[j], '"'),
    ensures
        str_tail(x + r) == str_tail(r),
    decreases x.len(),
{
    if x.len() > 0 {
        let t = x.drop_first();
        assert forall|j: int| 0 <= j < t.len() implies is_plain(#[trigger] t[j], '"') by {
            assert(t[j] == x[j + 1]);
        }
        lemma_plain_then_tail(t, r);
        assert((x + r)[0] == x[0]);
        assert((x + r).subrange(1, (x + r).len() as int) =~= t + r);
    }
}

/// A string literal may hold each of the escapes `\"`, `\\`, `\b`, `\n`,
/// `\f`, `\r` and `\t` among plain characters: the string rule matches
/// the whole literal.
pub proof fn lemma_string_escapes(x: Seq<char>, c: char, y: Seq<char>)
    requires
        forall|j: int| 0 <= j < x.len() ==> is_plain(#[trigger] x[j], '"'),
        forall|j: int| 0 <= j < y.len() ==> is_plain(#[trigger] y[j], '"'),
        c == '"' || c == '\\' || c == 'b' || c == 'n' || c == 'f' || c == 'r' || c == 't',
    ensures
        rule_matches(
            Lexeme::Tok(TokenKind::Str),
            seq!['"'] + x + seq!['\\', c] + y + seq!['"'],
        ),
{
    let s = seq!['"'] + x + seq!['\\', c] + y + seq!['"'];
    let r1 = seq!['\\', c] + y + seq!['"'];
    assert(s.subrange(1, s.len() as int) =~= x + r1);
    lemma_plain_then_tail(x, r1);
    assert(r1[0] == '\\' && r1[1] == c);
    assert(r1.subrange(2, r1.len() as int) =~= y + seq!['"']);
    lemma_plain_then_tail(y, seq!['"']);
    assert(str_tail(seq!['"']));
}

/// A character literal may be each of the escapes `\'`, `\\`, `\b`,
/// `\n`, `\f`, `\r` and `\t`: the character rule matches it.
pub proof fn lemma_char_escapes(c: char)
    requires
        c == '\'' || c == '\\' || c == 'b' || c == 'n' || c == 'f' || c == 'r' || c == 't',
    ensures
        rule_matches(Lexeme::Tok(TokenKind::Chr), seq!['\'', '\\', c, '\'']),
{
    let s = seq!['\'', '\\', c, '\''];
    assert(s.subrange(1, s.len() - 1) =~= seq!['\\', c]);
}

} // verus!
