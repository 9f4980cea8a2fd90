//! How far an error token reaches: where no rule matches any text from a
//! position, the longest stretch after which some rule could still go on.
use vstd::prelude::*;
use crate::def::TokenKind;
use crate::lexer::{
    Lexeme, rule_matches, span, can_continue, is_error_len, all_hex, is_simple_escape, is_plain,
    str_tail, chr_item, is_spelled, spelling, digits_from,
};
use crate::unicode::{is_control, word_char, is_ascii_word};
use crate::scan::{simple_escape, hex_digit};

verus! {

/// `x` is a run of complete string-literal items (no closing quote among
/// them).
pub open spec fn str_items(x: Seq<char>) -> bool
    decreases x.len(),
{
    if x.len() == 0 {
        true
    } else if x[0] == '\\' {
        if x.len() < 2 {
            false
        } else if is_simple_escape(x[1], '"') {
            str_items(x.subrange(2, x.len() as int))
        } else if x[1] == 'u' {
            x.len() >= 6 && all_hex(x.subrange(2, 6)) && str_items(x.subrange(6, x.len() as int))
        } else if x[1] == 'x' {
            x.len() >= 4 && all_hex(x.subrange(2, 4)) && str_items(x.subrange(4, x.len() as int))
        } else {
            false
        }
    } else {
        is_plain(x[0], '"') && str_items(x.subrange(1, x.len() as int))
    }
}

/// Complete items in front do not change whether a text is a string's tail.
proof fn lemma_items_then_tail(x: Seq<char>, y: Seq<char>)
    requires
        str_items(x),
    ensures
        str_tail(x + y) == str_tail(y),
    decreases x.len(),
{
    if x.len() > 0 {
        let r = x + y;
        assert(r[0] == x[0]);
        let k: int = if x[0] != '\\' {
            1
        } else if is_simple_escape(x[1], '"') {
            2
        } else if x[1] == 'u' {
            6
        } else {
            4
        };
        if x[0] == '\\' {
            assert(r[1] == x[1]);
            if x[1] == 'u' && !is_simple_escape(x[1], '"') {
                assert(r.subrange(2, 6) =~= x.subrange(2, 6));
            }
            if x[1] == 'x' && !is_simple_escape(x[1], '"') {
                assert(r.subrange(2, 4) =~= x.subrange(2, 4));
            }
        }
        assert(r.subrange(k, r.len() as int) =~= x.subrange(k, x.len() as int) + y);
        lemma_items_then_tail(x.subrange(k, x.len() as int), y);
    }
}

/// Appending one complete item keeps a run of items.
proof fn lemma_items_push(x: Seq<char>, item: Seq<char>)
    requires
        str_items(x),
        str_items(item),
    ensures
        str_items(x + item),
    decreases x.len(),
{
    if x.len() > 0 {
        let r = x + item;
        assert(r[0] == x[0]);
        let k: int = if x[0] != '\\' {
            1
        } else if is_simple_escape(x[1], '"') {
            2
        } else if x[1] == 'u' {
            6
        } else {
            4
        };
        if x[0] == '\\' {
            assert(r[1] == x[1]);
            if x[1] == 'u' && !is_simple_escape(x[1], '"') {
                assert(r.subrange(2, 6) =~= x.subrange(2, 6));
            }
            if x[1] == 'x' && !is_simple_escape(x[1], '"') {
                assert(r.subrange(2, 4) =~= x.subrange(2, 4));
            }
        }
        assert(r.subrange(k, r.len() as int) =~= x.subrange(k, x.len() as int) + item);
        lemma_items_push(x.subrange(k, x.len() as int), item);
    } else {
        assert(x + item =~= item);
    }
}

/// How many hexadecimal digits follow one another from `from`, counting at
/// most `max` of them.
fn hex_count(chars: &[char], from: usize, max: usize) -> (h: usize)
    requires
        from <= chars@.len(),
    ensures
        h <= max,
        from + h <= chars@.len(),
        forall|k: int| from <= k < from + h ==> crate::lexer::is_hex(#[trigger] chars@[k]),
        h < max && from + h < chars@.len() ==> !crate::lexer::is_hex(chars@[from + h]),
{
    let mut h: usize = 0;
    while h < max && h < chars.len() - from && hex_digit(chars[from + h])
        invariant
            h <= max,
            from + h <= chars@.len(),
            forall|k: int| from <= k < from + h ==> crate::lexer::is_hex(#[trigger] chars@[k]),
        decreases max - h,
    {
        h += 1;
    }
    h
}

/// `k` zeros.
pub open spec fn zeros(k: nat) -> Seq<char> {
    Seq::new(k, |_j: int| '0')
}

/// A backslash, `u` or `x`, `h` hexadecimal digits, then zeros up to
/// `width` digits and a closing quote: a string literal's tail.
proof fn lemma_hex_escape_tail(esc: Seq<char>, h: int, width: int)
    requires
        width == 4 || width == 2,
        0 <= h <= width,
        esc.len() == 2 + h,
        esc[0] == '\\',
        esc[1] == (if width == 4 { 'u' } else { 'x' }),
        all_hex(esc.subrange(2, 2 + h)),
    ensures
        str_tail(esc + zeros((width - h) as nat) + seq!['"']),
{
    let r = esc + zeros((width - h) as nat) + seq!['"'];
    assert(r[0] == '\\');
    assert(r[1] == esc[1]);
    assert(all_hex(r.subrange(2, 2 + width))) by {
        assert forall|j: int| 0 <= j < width implies crate::lexer::is_hex(
            #[trigger] r.subrange(2, 2 + width)[j],
        ) by {
            if j < h {
                assert(r.subrange(2, 2 + width)[j] == esc.subrange(2, 2 + h)[j]);
            } else {
                assert(r.subrange(2, 2 + width)[j] == '0');
            }
        }
    }
    assert(r.subrange(2 + width, r.len() as int) =~= seq!['"']);
    assert(str_tail(seq!['"']));
    assert(r.len() == 3 + width);
    assert(!is_simple_escape(r[1], '"'));
    if width == 4 {
        assert(str_tail(r.subrange(6, r.len() as int)));
    } else {
        assert(str_tail(r.subrange(4, r.len() as int)));
    }
}

/// A string literal that begins with the `v` characters from `i` and goes
/// on with `t`, told by its tail.
proof fn lemma_str_rule(input: Seq<char>, i: int, v: int, t: Seq<char>)
    requires
        0 <= i < input.len(),
        1 <= v <= input.len() - i,
        input[i] == '"',
    ensures
        rule_matches(Lexeme::Tok(TokenKind::Str), span(input, i, v) + t) == (v + t.len() >= 2
            && str_tail(input.subrange(i + 1, i + v) + t)),
{
    let q = span(input, i, v) + t;
    assert(q[0] == input[i]);
    assert(q.subrange(1, q.len() as int) =~= input.subrange(i + 1, i + v) + t);
}

/// The items read so far, then the rest of the text read, then `t`: a string
/// literal's tail exactly where the rest and `t` are.
proof fn lemma_items_rest(input: Seq<char>, i: int, j: int, e: int, t: Seq<char>)
    requires
        0 <= i < j <= e <= input.len(),
        str_items(input.subrange(i + 1, j)),
    ensures
        str_tail(input.subrange(i + 1, e) + t) == str_tail(input.subrange(j, e) + t),
{
    lemma_items_then_tail(input.subrange(i + 1, j), input.subrange(j, e) + t);
    assert(input.subrange(i + 1, e) + t =~= input.subrange(i + 1, j) + (input.subrange(j, e) + t));
}

/// Some string literal begins with the `v` characters from `i`.
pub open spec fn str_goes_on(input: Seq<char>, i: int, v: int) -> bool {
    exists|t: Seq<char>| rule_matches(Lexeme::Tok(TokenKind::Str), span(input, i, v) + t)
}

/// No string literal begins with the `v + 1` characters from `i` (or there
/// are no more).
pub open spec fn str_stops_after(input: Seq<char>, i: int, v: int) -> bool {
    v < input.len() - i ==> forall|t: Seq<char>|
        !rule_matches(Lexeme::Tok(TokenKind::Str), #[trigger] (span(input, i, v + 1) + t))
}

/// Where the items read reach the end, a closing quote would end the string.
proof fn lemma_str_at_end(input: Seq<char>, i: int, j: int)
    requires
        0 <= i < j == input.len(),
        input[i] == '"',
        str_items(input.subrange(i + 1, j)),
    ensures
        str_goes_on(input, i, j - i),
{
    let t = seq!['"'];
    lemma_str_rule(input, i, j - i, t);
    lemma_items_rest(input, i, j, j, t);
    assert(input.subrange(j, j) + t =~= t);
    assert(str_tail(t));
    assert(rule_matches(Lexeme::Tok(TokenKind::Str), span(input, i, j - i) + t));
}

/// A closing quote right after the items would end a string there.
proof fn lemma_str_closes(input: Seq<char>, i: int, j: int)
    requires
        0 <= i < j < input.len(),
        input[i] == '"',
        input[j] == '"',
        str_items(input.subrange(i + 1, j)),
    ensures
        rule_matches(Lexeme::Tok(TokenKind::Str), span(input, i, j + 1 - i)),
{
    let t = Seq::<char>::empty();
    lemma_str_rule(input, i, j + 1 - i, t);
    lemma_items_rest(input, i, j, j + 1, t);
    assert(input.subrange(j, j + 1) + t =~= seq!['"']);
    assert(str_tail(seq!['"']));
    assert(span(input, i, j + 1 - i) + t =~= span(input, i, j + 1 - i));
}

/// A backslash at the end, after the items: `n` and a closing quote would end
/// the string.
proof fn lemma_str_backslash_at_end(input: Seq<char>, i: int, j: int)
    requires
        0 <= i < j,
        j + 1 == input.len(),
        input[i] == '"',
        input[j] == '\\',
        str_items(input.subrange(i + 1, j)),
    ensures
        str_goes_on(input, i, j + 1 - i),
{
    let t = seq!['n', '"'];
    lemma_str_rule(input, i, j + 1 - i, t);
    lemma_items_rest(input, i, j, j + 1, t);
    let r = input.subrange(j, j + 1) + t;
    assert(r =~= seq!['\\', 'n', '"']);
    assert(r.subrange(2, 3) =~= seq!['"']);
    assert(str_tail(seq!['"']));
    assert(r[0] == '\\' && r[1] == 'n');
    assert(rule_matches(Lexeme::Tok(TokenKind::Str), span(input, i, j + 1 - i) + t));
}

/// A backslash and a character that no escape begins with: the string could
/// go on up to the backslash, and no further.
proof fn lemma_str_bad_escape(input: Seq<char>, i: int, j: int)
    requires
        0 <= i < j,
        j + 1 < input.len(),
        input[i] == '"',
        input[j] == '\\',
        !is_simple_escape(input[j + 1], '"'),
        input[j + 1] != 'u',
        input[j + 1] != 'x',
        str_items(input.subrange(i + 1, j)),
    ensures
        str_goes_on(input, i, j + 1 - i),
        str_stops_after(input, i, j + 1 - i),
{
    let v = j + 1 - i;
    let t = seq!['n', '"'];
    lemma_str_rule(input, i, v, t);
    lemma_items_rest(input, i, j, i + v, t);
    let r = input.subrange(j, i + v) + t;
    assert(r =~= seq!['\\', 'n', '"']);
    assert(r.subrange(2, 3) =~= seq!['"']);
    assert(str_tail(seq!['"']));
    assert(r[0] == '\\' && r[1] == 'n');
    assert(rule_matches(Lexeme::Tok(TokenKind::Str), span(input, i, v) + t));
    assert forall|t2: Seq<char>|
        !rule_matches(Lexeme::Tok(TokenKind::Str), #[trigger] (span(input, i, v + 1) + t2)) by {
        lemma_str_rule(input, i, v + 1, t2);
        lemma_items_rest(input, i, j, i + v + 1, t2);
        let r2 = input.subrange(j, i + v + 1) + t2;
        assert(r2[0] == '\\');
        assert(r2[1] == input[j + 1]);
    }
}

/// A control character after the items: the string could go on up to it,
/// and no further.
proof fn lemma_str_control(input: Seq<char>, i: int, j: int)
    requires
        0 <= i < j < input.len(),
        input[i] == '"',
        is_control(input[j]),
        str_items(input.subrange(i + 1, j)),
    ensures
        str_goes_on(input, i, j - i),
        str_stops_after(input, i, j - i),
{
    let v = j - i;
    let t = seq!['"'];
    lemma_str_rule(input, i, v, t);
    lemma_items_rest(input, i, j, j, t);
    assert(input.subrange(j, j) + t =~= t);
    assert(str_tail(t));
    assert(rule_matches(Lexeme::Tok(TokenKind::Str), span(input, i, v) + t));
    assert forall|t2: Seq<char>|
        !rule_matches(Lexeme::Tok(TokenKind::Str), #[trigger] (span(input, i, v + 1) + t2)) by {
        lemma_str_rule(input, i, v + 1, t2);
        lemma_items_rest(input, i, j, j + 1, t2);
        let r2 = input.subrange(j, j + 1) + t2;
        assert(r2[0] == input[j]);
    }
}

/// A `\u` or `\x` escape whose hexadecimal digits stop after `h` of them:
/// the string could go on up to them, and no further.
proof fn lemma_str_hex_stops(input: Seq<char>, i: int, j: int, h: int, width: int)
    requires
        0 <= i < j,
        width == 4 || width == 2,
        0 <= h < width,
        j + 2 + h <= input.len(),
        input[i] == '"',
        input[j] == '\\',
        input[j + 1] == (if width == 4 { 'u' } else { 'x' }),
        forall|k: int| j + 2 <= k < j + 2 + h ==> crate::lexer::is_hex(#[trigger] input[k]),
        j + 2 + h < input.len() ==> !crate::lexer::is_hex(input[j + 2 + h]),
        str_items(input.subrange(i + 1, j)),
    ensures
        str_goes_on(input, i, j + 2 + h - i),
        str_stops_after(input, i, j + 2 + h - i),
{
    let v = j + 2 + h - i;
    let t = zeros((width - h) as nat) + seq!['"'];
    let esc = input.subrange(j, j + 2 + h);
    assert(all_hex(esc.subrange(2, 2 + h))) by {
        assert forall|k: int| 0 <= k < h implies crate::lexer::is_hex(
            #[trigger] esc.subrange(2, 2 + h)[k],
        ) by {
            assert(esc.subrange(2, 2 + h)[k] == input[j + 2 + k]);
        }
    }
    lemma_hex_escape_tail(esc, h, width);
    lemma_str_rule(input, i, v, t);
    lemma_items_rest(input, i, j, i + v, t);
    assert(esc + zeros((width - h) as nat) + seq!['"'] =~= input.subrange(j, i + v) + t);
    assert(rule_matches(Lexeme::Tok(TokenKind::Str), span(input, i, v) + t));
    if v < input.len() - i {
        assert forall|t2: Seq<char>|
            !rule_matches(Lexeme::Tok(TokenKind::Str), #[trigger] (span(input, i, v + 1) + t2)) by {
            lemma_str_rule(input, i, v + 1, t2);
            lemma_items_rest(input, i, j, i + v + 1, t2);
            let r = input.subrange(j, i + v + 1) + t2;
            assert(r[0] == '\\');
            assert(r[1] == input[j + 1]);
            assert(r[2 + h] == input[j + 2 + h]);
            if r.len() >= 2 + width {
                assert(r.subrange(2, 2 + width)[h] == r[2 + h]);
            }
        }
    }
}

/// One more complete item after the items read.
proof fn lemma_str_item(input: Seq<char>, i: int, j: int, k: int)
    requires
        0 <= i < j,
        j + k <= input.len(),
        1 <= k,
        str_items(input.subrange(i + 1, j)),
        str_items(input.subrange(j, j + k)),
    ensures
        str_items(input.subrange(i + 1, j + k)),
{
    lemma_items_push(input.subrange(i + 1, j), input.subrange(j, j + k));
    assert(input.subrange(i + 1, j) + input.subrange(j, j + k) =~= input.subrange(i + 1, j + k));
}

/// The longest stretch from `i`, where a string literal opens but none
/// closes, after which a string literal could still go on.
fn str_viable(chars: &[char], i: usize) -> (v: usize)
    requires
        i < chars@.len(),
        chars@[i as int] == '"',
        forall|m: int|
            1 <= m <= chars@.len() - i ==> !#[trigger] rule_matches(
                Lexeme::Tok(TokenKind::Str),
                span(chars@, i as int, m),
            ),
    ensures
        1 <= v <= chars@.len() - i,
        str_goes_on(chars@, i as int, v as int),
        str_stops_after(chars@, i as int, v as int),
{
    let ghost input = chars@;
    let len = chars.len();
    let mut j = i + 1;
    assert(input.subrange(i + 1, j as int) =~= Seq::<char>::empty());
    loop
        invariant
            input == chars@,
            len == input.len(),
            i < j <= len,
            input[i as int] == '"',
            str_items(input.subrange(i + 1, j as int)),
            forall|m: int|
                1 <= m <= input.len() - i ==> !#[trigger] rule_matches(
                    Lexeme::Tok(TokenKind::Str),
                    span(input, i as int, m),
                ),
        decreases len - j,
    {
        if j == len {
            proof {
                lemma_str_at_end(input, i as int, j as int);
            }
            return len - i;
        }
        let c = chars[j];
        if c == '"' {
            proof {
                lemma_str_closes(input, i as int, j as int);
            }
            return 0;
        }
        if c == '\\' {
            if j + 1 == len {
                proof {
                    lemma_str_backslash_at_end(input, i as int, j as int);
                }
                return len - i;
            }
            let d = chars[j + 1];
            if simple_escape(d, '"') {
                proof {
                    let item = input.subrange(j as int, j + 2);
                    assert(item[0] == c && item[1] == d);
                    assert(item.subrange(2, 2) =~= Seq::<char>::empty());
                    assert(str_items(Seq::<char>::empty()));
                    lemma_str_item(input, i as int, j as int, 2);
                }
                j = j + 2;
            } else if d == 'u' || d == 'x' {
                let width: usize = if d == 'u' { 4 } else { 2 };
                let h = hex_count(chars, j + 2, width);
                if h == width {
                    proof {
                        let item = input.subrange(j as int, j + 2 + width);
                        assert(item[0] == c && item[1] == d);
                        assert(item.subrange(2 + width as int, item.len() as int) =~= Seq::<char>::empty());
                        assert(str_items(Seq::<char>::empty()));
                        assert(all_hex(item.subrange(2, 2 + width as int))) by {
                            assert forall|k: int| 0 <= k < width implies crate::lexer::is_hex(
                                #[trigger] item.subrange(2, 2 + width as int)[k],
                            ) by {
                                assert(item.subrange(2, 2 + width as int)[k] == input[j + 2 + k]);
                            }
                        }
                        lemma_str_item(input, i as int, j as int, 2 + width);
                    }
                    j = j + 2 + width;
                } else {
                    proof {
                        lemma_str_hex_stops(input, i as int, j as int, h as int, width as int);
                    }
                    return j + 2 + h - i;
                }
            } else {
                proof {
                    lemma_str_bad_escape(input, i as int, j as int);
                }
                return j + 1 - i;
            }
        } else if crate::unicode::control(c) {
            proof {
                lemma_str_control(input, i as int, j as int);
            }
            return j - i;
        } else {
            proof {
                let item = input.subrange(j as int, j + 1);
                assert(item[0] == c);
                assert(item.subrange(1, 1) =~= Seq::<char>::empty());
                assert(str_items(Seq::<char>::empty()));
                lemma_str_item(input, i as int, j as int, 1);
            }
            j = j + 1;
        }
    }
}

/// Some literal of kind `k` begins with the `v` characters from `i`.
pub open spec fn kind_goes_on(k: TokenKind, input: Seq<char>, i: int, v: int) -> bool {
    exists|t: Seq<char>| rule_matches(Lexeme::Tok(k), span(input, i, v) + t)
}

/// No literal of kind `k` begins with the `v + 1` characters from `i` (or
/// there are no more).
pub open spec fn kind_stops_after(k: TokenKind, input: Seq<char>, i: int, v: int) -> bool {
    v < input.len() - i ==> forall|t: Seq<char>|
        !rule_matches(Lexeme::Tok(k), #[trigger] (span(input, i, v + 1) + t))
}

/// The longest stretch from `i`, where a raw string opens but none closes,
/// after which a raw string could still go on.
fn raw_str_viable(chars: &[char], i: usize) -> (v: usize)
    requires
        i < chars@.len(),
        chars@[i as int] == '<',
        forall|m: int|
            1 <= m <= chars@.len() - i ==> !#[trigger] rule_matches(
                Lexeme::Tok(TokenKind::RawStr),
                span(chars@, i as int, m),
            ),
    ensures
        1 <= v <= chars@.len() - i,
        kind_goes_on(TokenKind::RawStr, chars@, i as int, v as int),
        kind_stops_after(TokenKind::RawStr, chars@, i as int, v as int),
{
    let ghost input = chars@;
    if chars.len() - i == 1 || chars[i + 1] != '<' {
        proof {
            let t = seq!['<', '>', '>'];
            let q = span(input, i as int, 1) + t;
            assert(q =~= seq!['<', '<', '>', '>']);
            assert(rule_matches(Lexeme::Tok(TokenKind::RawStr), q));
            assert forall|t2: Seq<char>| 1 < input.len() - i implies !rule_matches(
                Lexeme::Tok(TokenKind::RawStr),
                #[trigger] (span(input, i as int, 2) + t2),
            ) by {
                assert((span(input, i as int, 2) + t2)[1] == input[i + 1]);
            }
        }
        return 1;
    }
    let e = crate::scan::text_run_end(chars, i + 2);
    let v = e - i;
    proof {
        let t = seq!['>', '>'];
        let q = span(input, i as int, v as int) + t;
        assert(q[0] == input[i as int]);
        assert(q[1] == input[i + 1]);
        assert(q[q.len() - 2] == '>' && q[q.len() - 1] == '>');
        assert forall|j: int| 2 <= j < q.len() implies !is_control(#[trigger] q[j]) by {
            if j < v {
                assert(q[j] == input[i + j]);
            }
        }
        assert(rule_matches(Lexeme::Tok(TokenKind::RawStr), q));
        assert forall|t2: Seq<char>| v < input.len() - i implies !rule_matches(
            Lexeme::Tok(TokenKind::RawStr),
            #[trigger] (span(input, i as int, v + 1) + t2),
        ) by {
            let q2 = span(input, i as int, v + 1) + t2;
            assert(q2[v as int] == input[e as int]);
        }
    }
    v
}

/// What a character literal that begins with the `v` characters from `i`
/// and goes on with `t` looks like, character by character.
proof fn lemma_chr_rule(input: Seq<char>, i: int, v: int, t: Seq<char>)
    requires
        0 <= i,
        1 <= v <= input.len() - i,
    ensures
        ({
            let q = span(input, i, v) + t;
            &&& q.len() == v + t.len()
            &&& forall|k: int| 0 <= k < v ==> #[trigger] q[k] == input[i + k]
            &&& forall|k: int| v <= k < q.len() ==> #[trigger] q[k] == t[k - v]
            &&& rule_matches(Lexeme::Tok(TokenKind::Chr), q) == (q.len() >= 2 && q[0] == '\''
                && q[q.len() - 1] == '\'' && chr_item(q.subrange(1, q.len() - 1)))
        }),
{
}

/// The longest stretch from `i`, where a character literal opens but none
/// closes, after which a character literal could still go on.
fn chr_viable(chars: &[char], i: usize) -> (v: usize)
    requires
        i < chars@.len(),
        chars@[i as int] == '\'',
        forall|m: int|
            1 <= m <= chars@.len() - i ==> !#[trigger] rule_matches(
                Lexeme::Tok(TokenKind::Chr),
                span(chars@, i as int, m),
            ),
    ensures
        1 <= v <= chars@.len() - i,
        kind_goes_on(TokenKind::Chr, chars@, i as int, v as int),
        kind_stops_after(TokenKind::Chr, chars@, i as int, v as int),
{
    let ghost input = chars@;
    let rem = chars.len() - i;
    if rem == 1 {
        proof {
            let t = seq!['\''];
            lemma_chr_rule(input, i as int, 1, t);
            assert(span(input, i as int, 1) + t =~= seq!['\'', '\'']);
            assert((span(input, i as int, 1) + t).subrange(1, 1) =~= Seq::<char>::empty());
        }
        return 1;
    }
    let c1 = chars[i + 1];
    if c1 == '\'' {
        proof {
            lemma_chr_rule(input, i as int, 2, Seq::<char>::empty());
            let q = span(input, i as int, 2) + Seq::<char>::empty();
            assert(q.subrange(1, 1) =~= Seq::<char>::empty());
            assert(q =~= span(input, i as int, 2));
        }
        return 0;
    }
    if c1 != '\\' {
        // A plain character or a control character after the quote.
        let plain = !crate::unicode::control(c1);
        if plain && rem > 2 && chars[i + 2] == '\'' {
            proof {
                lemma_chr_rule(input, i as int, 3, Seq::<char>::empty());
                let q = span(input, i as int, 3) + Seq::<char>::empty();
                assert(q.subrange(1, 2) =~= seq![c1]);
                assert(q =~= span(input, i as int, 3));
            }
            return 0;
        }
        let v: usize = if plain { 2 } else { 1 };
        proof {
            let t = seq!['\''];
            lemma_chr_rule(input, i as int, v as int, t);
            let q = span(input, i as int, v as int) + t;
            if plain {
                assert(q.subrange(1, 2) =~= seq![c1]);
            } else {
                assert(q.subrange(1, 1) =~= Seq::<char>::empty());
            }
            assert forall|t2: Seq<char>| v < rem implies !rule_matches(
                Lexeme::Tok(TokenKind::Chr),
                #[trigger] (span(input, i as int, v + 1) + t2),
            ) by {
                lemma_chr_rule(input, i as int, v + 1, t2);
                let q2 = span(input, i as int, v + 1) + t2;
                let m = q2.subrange(1, q2.len() - 1);
                if q2.len() >= 2 {
                    assert(m.len() >= 1 ==> m[0] == q2[1]);
                    assert(m.len() >= 2 ==> m[1] == q2[2]);
                }
            }
        }
        return v;
    }
    // A backslash after the quote.
    if rem == 2 {
        proof {
            let t = seq!['n', '\''];
            lemma_chr_rule(input, i as int, 2, t);
            let q = span(input, i as int, 2) + t;
            assert(q.subrange(1, 3) =~= seq!['\\', 'n']);
        }
        return 2;
    }
    let c2 = chars[i + 2];
    if simple_escape(c2, '\'') {
        if rem > 3 && chars[i + 3] == '\'' {
            proof {
                lemma_chr_rule(input, i as int, 4, Seq::<char>::empty());
                let q = span(input, i as int, 4) + Seq::<char>::empty();
                assert(q.subrange(1, 3) =~= seq!['\\', c2]);
                assert(q =~= span(input, i as int, 4));
            }
            return 0;
        }
        proof {
            let t = seq!['\''];
            lemma_chr_rule(input, i as int, 3, t);
            let q = span(input, i as int, 3) + t;
            assert(q.subrange(1, 3) =~= seq!['\\', c2]);
            assert forall|t2: Seq<char>| 3 < rem implies !rule_matches(
                Lexeme::Tok(TokenKind::Chr),
                #[trigger] (span(input, i as int, 4) + t2),
            ) by {
                lemma_chr_rule(input, i as int, 4, t2);
                let q2 = span(input, i as int, 4) + t2;
                let m = q2.subrange(1, q2.len() - 1);
                assert(m[0] == q2[1]);
                assert(m[1] == q2[2]);
                assert(m.len() == 2 ==> q2[3] == q2[q2.len() - 1]);
            }
        }
        return 3;
    }
    if c2 == 'u' || c2 == 'x' {
        let width: usize = if c2 == 'u' { 4 } else { 2 };
        let h = hex_count(chars, i + 3, width);
        if h == width && rem > 3 + width && chars[i + 3 + width] == '\'' {
            proof {
                let n = 4 + width as int;
                lemma_chr_rule(input, i as int, n, Seq::<char>::empty());
                let q = span(input, i as int, n) + Seq::<char>::empty();
                let m = q.subrange(1, n - 1);
                assert(m[0] == '\\' && m[1] == c2);
                assert forall|k: int| 0 <= k < width implies crate::lexer::is_hex(
                    #[trigger] m.subrange(2, 2 + width as int)[k],
                ) by {
                    assert(m.subrange(2, 2 + width as int)[k] == input[i + 3 + k]);
                }
                assert(q =~= span(input, i as int, n));
            }
            return 0;
        }
        let v = 3 + h;
        proof {
            let t = zeros((width - h) as nat) + seq!['\''];
            lemma_chr_rule(input, i as int, v as int, t);
            let q = span(input, i as int, v as int) + t;
            let m = q.subrange(1, q.len() - 1);
            assert(q.len() == 4 + width);
            assert(m[0] == '\\' && m[1] == c2);
            assert forall|k: int| 0 <= k < width implies crate::lexer::is_hex(
                #[trigger] m.subrange(2, 2 + width as int)[k],
            ) by {
                assert(m.subrange(2, 2 + width as int)[k] == q[3 + k]);
                if k < h {
                    assert(q[3 + k] == input[i + 3 + k]);
                } else {
                    assert(q[3 + k] == t[3 + k - v]);
                }
            }
            assert(rule_matches(Lexeme::Tok(TokenKind::Chr), q));
            assert forall|t2: Seq<char>| v < rem implies !rule_matches(
                Lexeme::Tok(TokenKind::Chr),
                #[trigger] (span(input, i as int, v + 1) + t2),
            ) by {
                lemma_chr_rule(input, i as int, v + 1, t2);
                let q2 = span(input, i as int, v + 1) + t2;
                let m2 = q2.subrange(1, q2.len() - 1);
                assert(m2.len() >= 2 ==> m2[0] == q2[1] && m2[1] == q2[2]);
                if h < width {
                    assert(m2.len() == 2 + width ==> m2.subrange(2, 2 + width as int)[h as int]
                        == q2[3 + h]);
                } else {
                    assert(q2[3 + h] == input[i + 3 + h]);
                }
            }
        }
        return v;
    }
    proof {
        let t = seq!['n', '\''];
        lemma_chr_rule(input, i as int, 2, t);
        let q = span(input, i as int, 2) + t;
        assert(q.subrange(1, 3) =~= seq!['\\', 'n']);
        assert forall|t2: Seq<char>| 2 < rem implies !rule_matches(
            Lexeme::Tok(TokenKind::Chr),
            #[trigger] (span(input, i as int, 3) + t2),
        ) by {
            lemma_chr_rule(input, i as int, 3, t2);
            let q2 = span(input, i as int, 3) + t2;
            let m2 = q2.subrange(1, q2.len() - 1);
            assert(m2.len() >= 2 ==> m2[0] == q2[1] && m2[1] == q2[2]);
            assert(m2.len() == 1 ==> m2[0] == q2[1]);
        }
    }
    2
}

/// A rule that matches the first character alone of whatever `l` matches,
/// for every `l` but the quoted literals.
pub open spec fn first_rule(l: Lexeme) -> Lexeme {
    match l {
        Lexeme::Space => Lexeme::Space,
        Lexeme::Tok(k) => match k {
            TokenKind::Comment | TokenKind::Doc => Lexeme::Tok(TokenKind::Comment),
            TokenKind::Num | TokenKind::Dot => Lexeme::Tok(TokenKind::Num),
            TokenKind::LDblBrace => Lexeme::Tok(TokenKind::LBrace),
            TokenKind::RDblBrace => Lexeme::Tok(TokenKind::RBrace),
            TokenKind::Arrow => Lexeme::Tok(TokenKind::Minus),
            TokenKind::Show | TokenKind::Read | TokenKind::As | TokenKind::Let | TokenKind::Mut
            | TokenKind::Def | TokenKind::Fun | TokenKind::Return | TokenKind::Rec | TokenKind::If
            | TokenKind::Elif | TokenKind::Else | TokenKind::Loop | TokenKind::While
            | TokenKind::Every | TokenKind::Do | TokenKind::Bln | TokenKind::Word => Lexeme::Tok(
                TokenKind::Word,
            ),
            _ => l,
        },
    }
}

/// Whatever a rule other than the quoted literals matches, its first
/// character alone is matched too (by `first_rule`): lexing can only get
/// stuck on a quote.
proof fn lemma_first_char(l: Lexeme, q: Seq<char>)
    requires
        rule_matches(l, q),
        l != Lexeme::Tok(TokenKind::Str),
        l != Lexeme::Tok(TokenKind::RawStr),
        l != Lexeme::Tok(TokenKind::Chr),
        (q[0] as u32) < 0x80 ==> (word_char(q[0]) <==> is_ascii_word(q[0])),
    ensures
        rule_matches(first_rule(l), seq![q[0]]),
{
    let c = q[0];
    let one = seq![c];
    assert(one.len() == 1 && one[0] == c);
    match l {
        Lexeme::Tok(TokenKind::Dot) => {
            let d = choose|d: int|
                1 <= d < q.len() && #[trigger] q[d] == 'd' && digits_from(q.subrange(0, d), 0)
                    && digits_from(q, d + 1);
            assert(q.subrange(0, d)[0] == c);
        },
        Lexeme::Tok(k) => {
            if is_spelled(k) {
                assert(q == spelling(k));
                assert(spelling(k)[0] == c);
                if first_rule(l) == Lexeme::Tok(TokenKind::Word) {
                    assert(is_ascii_word(c));
                } else if spelling(k).len() >= 2 {
                    assert(one =~= spelling(first_rule(l)->Tok_0));
                } else {
                    assert(one =~= q);
                }
            } else if k == TokenKind::Bln || k == TokenKind::Return {
                assert(is_ascii_word(c));
            }
        },
        _ => {},
    }
}

/// The length of the error token at `i`, where no rule matches any text
/// from `i`: as far as some rule could still go on, and at least one
/// character.
pub fn error_len(chars: &[char], i: usize) -> (n: usize)
    requires
        i < chars@.len(),
        forall|l: Lexeme, m: int|
            1 <= m <= chars@.len() - i ==> !#[trigger] rule_matches(l, span(chars@, i as int, m)),
    ensures
        is_error_len(chars@, i as int, n as int),
{
    let ghost input = chars@;
    let c = chars[i];
    // Whether `c` is a word character: the proof below that no other rule
    // can go on from `c` rests on what the word class holds of it.
    let _c_is_word = crate::unicode::word_character(c);
    let v: usize = if c == '"' {
        str_viable(chars, i)
    } else if c == '<' {
        raw_str_viable(chars, i)
    } else if c == '\'' {
        chr_viable(chars, i)
    } else {
        0
    };
    let n: usize = if v >= 1 { v } else { 1 };
    proof {
        let special = if c == '"' {
            TokenKind::Str
        } else if c == '<' {
            TokenKind::RawStr
        } else {
            TokenKind::Chr
        };
        if v >= 1 {
            let t = choose|t: Seq<char>| rule_matches(Lexeme::Tok(special), span(input, i as int, v as int) + t);
            assert(rule_matches(Lexeme::Tok(special), span(input, i as int, n as int) + t));
        }
        assert(span(input, i as int, 1) =~= seq![c]);
        assert forall|m: int| n < m <= input.len() - i implies !can_continue(input, i as int, m) by {
            if can_continue(input, i as int, m) {
                let (l, t) = choose|l: Lexeme, t: Seq<char>|
                    #[trigger] rule_matches(l, span(input, i as int, m) + t);
                let q = span(input, i as int, m) + t;
                let t2 = input.subrange(i + n + 1, i + m) + t;
                assert(q =~= span(input, i as int, n + 1) + t2);
                assert(q[0] == c);
                if l == Lexeme::Tok(TokenKind::Str) || l == Lexeme::Tok(TokenKind::RawStr) || l
                    == Lexeme::Tok(TokenKind::Chr) {
                    if v >= 1 {
                        assert(!rule_matches(l, span(input, i as int, n + 1) + t2));
                    }
                } else {
                    lemma_first_char(l, q);
                    assert(!rule_matches(first_rule(l), span(input, i as int, 1)));
                }
            }
        }
    }
    n
}

} // verus!
