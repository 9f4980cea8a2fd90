//! Source text as characters: reading a `&str`, counting its UTF-8 bytes and
//! lines, and trimming white space.
use vstd::prelude::*;
use vstd::utf8::{encode_utf8, encode_scalar, char_is_scalar};
use ecow::EcoString;
use crate::eco::{eco_chars, eco_string_new, eco_string_push};
use crate::lexer::{utf8_width, byte_len, newlines, last_newline, trim_start, trim_end, trim};
use crate::unicode::{is_white_space, white_space};

verus! {

/// The characters of `s`, in order.
pub fn chars_of(s: &str) -> (r: Vec<char>)
    ensures
        r@ == s@,
{
    let mut r: Vec<char> = Vec::new();
    for c in it: s.chars()
        invariant
            r@ == it.seq().take(it.index()),
    {
        r.push(c);
    }
    proof {
        vstd::string::axiom_spec_iter(s);
    }
    r
}


/// A character takes as many bytes as its UTF-8 encoding.
proof fn lemma_width_encoding(c: char)
    ensures
        encode_scalar(c as u32).len() == utf8_width(c),
{
    char_is_scalar(c);
}

/// `byte_len` is never negative.
pub proof fn lemma_byte_len_nonneg(s: Seq<char>)
    ensures
        byte_len(s) >= 0,
    decreases s.len(),
{
    if s.len() > 0 {
        lemma_byte_len_nonneg(s.drop_last());
    }
}

/// The bytes of two texts put together are the bytes of each.
pub proof fn lemma_byte_len_concat(a: Seq<char>, b: Seq<char>)
    ensures
        byte_len(a + b) == byte_len(a) + byte_len(b),
    decreases b.len(),
{
    if b.len() > 0 {
        assert((a + b).drop_last() =~= a + b.drop_last());
        lemma_byte_len_concat(a, b.drop_last());
    } else {
        assert(a + b =~= a);
    }
}

/// `byte_len` counts the bytes of the text's UTF-8 encoding.
pub proof fn lemma_byte_len_encoding(s: Seq<char>)
    ensures
        byte_len(s) == encode_utf8(s).len(),
    decreases s.len(),
{
    if s.len() > 0 {
        lemma_byte_len_concat(seq![s[0]], s.drop_first());
        assert(seq![s[0]] + s.drop_first() =~= s);
        assert(seq![s[0]].drop_last() =~= Seq::<char>::empty());
        assert(byte_len(Seq::<char>::empty()) == 0);
        assert(seq![s[0]].last() == s[0]);
        assert(byte_len(seq![s[0]]) == utf8_width(s[0]));
        lemma_width_encoding(s[0]);
        lemma_byte_len_encoding(s.drop_first());
        assert(encode_utf8(s).len() == encode_scalar(s[0] as u32).len() + encode_utf8(
            s.drop_first(),
        ).len());
    }
}

/// A longer prefix takes at least as many bytes.
pub proof fn lemma_byte_len_prefix(s: Seq<char>, k: int, m: int)
    requires
        0 <= k <= m <= s.len(),
    ensures
        byte_len(s.subrange(0, k)) <= byte_len(s.subrange(0, m)),
{
    lemma_byte_len_concat(s.subrange(0, k), s.subrange(k, m));
    assert(s.subrange(0, k) + s.subrange(k, m) =~= s.subrange(0, m));
    lemma_byte_len_nonneg(s.subrange(k, m));
}

/// A text holds no more newlines than characters.
pub proof fn lemma_newlines_bound(s: Seq<char>)
    ensures
        0 <= newlines(s) <= s.len(),
    decreases s.len(),
{
    if s.len() > 0 {
        lemma_newlines_bound(s.drop_last());
    }
}

/// Trimming the start of a text drops exactly its leading white space.
proof fn lemma_trim_start(s: Seq<char>, k: int)
    requires
        0 <= k <= s.len(),
        forall|j: int| 0 <= j < k ==> is_white_space(#[trigger] s[j]),
        k == s.len() || !is_white_space(s[k]),
    ensures
        trim_start(s) == s.subrange(k, s.len() as int),
    decreases k,
{
    if k == 0 {
        assert(s.subrange(0, s.len() as int) =~= s);
    } else {
        assert(s.drop_first().subrange(k - 1, s.len() - 1) =~= s.subrange(k, s.len() as int));
        lemma_trim_start(s.drop_first(), k - 1);
    }
}

/// Trimming the end of a text drops exactly its trailing white space.
proof fn lemma_trim_end(s: Seq<char>, k: int)
    requires
        0 <= k <= s.len(),
        forall|j: int| k <= j < s.len() ==> is_white_space(#[trigger] s[j]),
        k == 0 || !is_white_space(s[k - 1]),
    ensures
        trim_end(s) == s.subrange(0, k),
    decreases s.len() - k,
{
    if k == s.len() {
        assert(s.subrange(0, k) =~= s);
    } else {
        assert(s.drop_last().subrange(0, k) =~= s.subrange(0, k));
        lemma_trim_end(s.drop_last(), k);
    }
}

/// How many bytes `c` takes in UTF-8 (what `char::len_utf8` gives).
pub fn char_width(c: char) -> (w: usize)
    ensures
        w == utf8_width(c),
{
    let v = c as u32;
    if v < 0x80 {
        1
    } else if v < 0x800 {
        2
    } else if v < 0x10000 {
        3
    } else {
        4
    }
}

/// The characters of `chars` from `from` to `to`, without white space at
/// either end, as a string.
pub fn trimmed(chars: &[char], from: usize, to: usize) -> (r: EcoString)
    requires
        from <= to <= chars@.len(),
    ensures
        eco_chars(r) == trim(chars@.subrange(from as int, to as int)),
{
    let ghost t = chars@.subrange(from as int, to as int);
    let mut a: usize = from;
    while a < to && white_space(chars[a])
        invariant
            from <= a <= to <= chars@.len(),
            forall|j: int| from <= j < a ==> is_white_space(#[trigger] chars@[j]),
        decreases to - a,
    {
        a += 1;
    }
    let mut b: usize = to;
    while b > a && white_space(chars[b - 1])
        invariant
            a <= b <= to <= chars@.len(),
            forall|j: int| b <= j < to ==> is_white_space(#[trigger] chars@[j]),
        decreases b - a,
    {
        b -= 1;
    }
    proof {
        lemma_trim_start(t, a - from);
        let u = t.subrange(a - from, to - from);
        assert forall|j: int| b - a <= j < u.len() implies is_white_space(#[trigger] u[j]) by {
            assert(u[j] == chars@[a + j]);
        }
        if b > a {
            assert(u[b - a - 1] == chars@[b - 1]);
        }
        lemma_trim_end(u, b - a);
        assert(u.subrange(0, b - a) =~= chars@.subrange(a as int, b as int));
    }
    let mut r = eco_string_new();
    let mut k: usize = a;
    while k < b
        invariant
            a <= k <= b <= chars@.len(),
            eco_chars(r) == chars@.subrange(a as int, k as int),
        decreases b - k,
    {
        eco_string_push(&mut r, chars[k]);
        assert(chars@.subrange(a as int, k + 1) =~= chars@.subrange(a as int, k as int).push(
            chars@[k as int],
        ));
        k += 1;
    }
    r
}

/// Reads the characters of `chars` from `from` to `to`, where the text
/// before `from` takes `bytes` bytes and the current line starts at byte
/// `line_start`: how many bytes the text before `to` takes, how many
/// newlines the read characters hold, and where the line starts after them
/// (right after their last newline, if they hold one).
pub fn advance(chars: &[char], from: usize, to: usize, bytes: usize, line_start: usize) -> (r: (
    usize,
    usize,
    usize,
))
    requires
        from <= to <= chars@.len(),
        bytes == byte_len(chars@.subrange(0, from as int)),
        byte_len(chars@) <= usize::MAX,
    ensures
        r.0 == byte_len(chars@.subrange(0, to as int)),
        r.1 == newlines(chars@.subrange(from as int, to as int)),
        r.2 == (if last_newline(chars@.subrange(from as int, to as int)) >= 0 {
            byte_len(
                chars@.subrange(0, from + last_newline(chars@.subrange(from as int, to as int)) + 1),
            )
        } else {
            line_start as int
        }),
{
    let mut k: usize = from;
    let mut b: usize = bytes;
    let mut nl: usize = 0;
    let mut ls: usize = line_start;
    proof {
        assert(chars@.subrange(from as int, from as int) =~= Seq::<char>::empty());
    }
    while k < to
        invariant
            from <= k <= to <= chars@.len(),
            b == byte_len(chars@.subrange(0, k as int)),
            nl == newlines(chars@.subrange(from as int, k as int)),
            nl <= k - from,
            ls == (if last_newline(chars@.subrange(from as int, k as int)) >= 0 {
                byte_len(
                    chars@.subrange(0, from + last_newline(chars@.subrange(from as int, k as int)) + 1),
                )
            } else {
                line_start as int
            }),
            byte_len(chars@) <= usize::MAX,
        decreases to - k,
    {
        let c = chars[k];
        proof {
            assert(chars@.subrange(0, k + 1).drop_last() =~= chars@.subrange(0, k as int));
            assert(chars@.subrange(from as int, k + 1).drop_last() =~= chars@.subrange(
                from as int,
                k as int,
            ));
            lemma_byte_len_prefix(chars@, k + 1, chars@.len() as int);
            assert(chars@.subrange(0, chars@.len() as int) =~= chars@);
        }
        b = b + char_width(c);
        if c == '\n' {
            nl = nl + 1;
            ls = b;
        }
        k += 1;
    }
    (b, nl, ls)
}

/// Whether byte offset `b` of the UTF-8 encoding of `s` falls between two
/// characters, or at either end.
pub open spec fn is_char_start(s: Seq<char>, b: int) -> bool {
    exists|k: int| 0 <= k <= s.len() && #[trigger] byte_len(s.subrange(0, k)) == b
}

/// The index of the character that starts at byte offset `b` of `s`.
pub open spec fn char_index(s: Seq<char>, b: int) -> int {
    choose|k: int| 0 <= k <= s.len() && #[trigger] byte_len(s.subrange(0, k)) == b
}

/// What `str::get(a..b)` gives on the string of `s`: the characters between
/// byte offsets `a` and `b` where both fall between characters and `a <= b`,
/// and nothing otherwise.
pub open spec fn byte_slice(s: Seq<char>, a: int, b: int) -> Option<Seq<char>> {
    if a <= b && is_char_start(s, a) && is_char_start(s, b) {
        Some(s.subrange(char_index(s, a), char_index(s, b)))
    } else {
        None
    }
}

/// Each character takes at least one byte, so a longer prefix takes more.
pub proof fn lemma_byte_len_increasing(s: Seq<char>, k: int, m: int)
    requires
        0 <= k < m <= s.len(),
    ensures
        byte_len(s.subrange(0, k)) < byte_len(s.subrange(0, m)),
    decreases m - k,
{
    assert(s.subrange(0, m).drop_last() =~= s.subrange(0, m - 1));
    if k < m - 1 {
        lemma_byte_len_increasing(s, k, m - 1);
    }
}

/// A byte offset names at most one character index.
proof fn lemma_char_index(s: Seq<char>, k: int)
    requires
        0 <= k <= s.len(),
    ensures
        is_char_start(s, byte_len(s.subrange(0, k))),
        char_index(s, byte_len(s.subrange(0, k))) == k,
{
    let b = byte_len(s.subrange(0, k));
    assert(is_char_start(s, b));
    let j = char_index(s, b);
    if j < k {
        lemma_byte_len_increasing(s, j, k);
    } else if k < j {
        lemma_byte_len_increasing(s, k, j);
    }
}

/// The first character index at or after byte offset `b`, from index
/// `k0` on, where the text before `k0` takes `bytes0` bytes and no fewer
/// than `b` of them: the index, and how many bytes the text before it takes.
fn index_at(chars: &[char], b: usize, k0: usize, bytes0: usize) -> (r: (usize, usize))
    requires
        k0 <= chars@.len(),
        bytes0 == byte_len(chars@.subrange(0, k0 as int)),
        bytes0 <= b,
        byte_len(chars@) <= usize::MAX,
        forall|j: int| 0 <= j < k0 ==> #[trigger] byte_len(chars@.subrange(0, j)) < b,
    ensures
        k0 <= r.0 <= chars@.len(),
        r.1 == byte_len(chars@.subrange(0, r.0 as int)),
        r.0 == chars@.len() || b <= r.1,
        forall|j: int| 0 <= j < r.0 ==> #[trigger] byte_len(chars@.subrange(0, j)) < b,
{
    let mut k = k0;
    let mut bytes = bytes0;
    while k < chars.len() && bytes < b
        invariant
            k0 <= k <= chars@.len(),
            bytes == byte_len(chars@.subrange(0, k as int)),
            byte_len(chars@) <= usize::MAX,
            forall|j: int| 0 <= j < k ==> #[trigger] byte_len(chars@.subrange(0, j)) < b,
        decreases chars@.len() - k,
    {
        proof {
            assert(chars@.subrange(0, k + 1).drop_last() =~= chars@.subrange(0, k as int));
            lemma_byte_len_prefix(chars@, k + 1, chars@.len() as int);
            assert(chars@.subrange(0, chars@.len() as int) =~= chars@);
        }
        bytes = bytes + char_width(chars[k]);
        k += 1;
    }
    (k, bytes)
}

/// Computes `byte_slice(chars@, a, b)`, as the character indices of the
/// slice's ends.
pub fn byte_range(chars: &[char], a: usize, b: usize) -> (r: Option<(usize, usize)>)
    requires
        byte_len(chars@) <= usize::MAX,
    ensures
        match r {
            Some((ka, kb)) => ka <= kb <= chars@.len() && byte_slice(chars@, a as int, b as int)
                == Some(chars@.subrange(ka as int, kb as int)),
            None => byte_slice(chars@, a as int, b as int) is None,
        },
{
    proof {
        assert(chars@.subrange(0, 0) =~= Seq::<char>::empty());
    }
    if a > b {
        return None;
    }
    let (ka, bytes_a) = index_at(chars, a, 0, 0);
    if bytes_a != a {
        proof {
            assert forall|k: int| 0 <= k <= chars@.len() implies #[trigger] byte_len(
                chars@.subrange(0, k),
            ) != a by {
                if k > ka {
                    lemma_byte_len_increasing(chars@, ka as int, k);
                }
            }
        }
        return None;
    }
    let (kb, bytes_b) = index_at(chars, b, ka, bytes_a);
    if bytes_b != b {
        proof {
            assert forall|k: int| 0 <= k <= chars@.len() implies #[trigger] byte_len(
                chars@.subrange(0, k),
            ) != b by {
                if k > kb {
                    lemma_byte_len_increasing(chars@, kb as int, k);
                }
            }
        }
        return None;
    }
    proof {
        lemma_char_index(chars@, ka as int);
        lemma_char_index(chars@, kb as int);
    }
    Some((ka, kb))
}

/// A text of ASCII characters takes one byte for each.
pub proof fn lemma_byte_len_ascii(s: Seq<char>)
    requires
        forall|j: int| 0 <= j < s.len() ==> (#[trigger] s[j] as u32) < 0x80,
    ensures
        byte_len(s) == s.len(),
    decreases s.len(),
{
    if s.len() > 0 {
        assert(s.last() as u32 == s[s.len() - 1] as u32);
        lemma_byte_len_ascii(s.drop_last());
    }
}

/// Cutting `a` ASCII characters off the front and `b` off the back by byte
/// offsets gives the characters between them.
pub proof fn lemma_byte_slice_inner(s: Seq<char>, a: int, b: int)
    requires
        0 <= a,
        0 <= b,
        a + b <= s.len(),
        forall|j: int| 0 <= j < a ==> (#[trigger] s[j] as u32) < 0x80,
        forall|j: int| s.len() - b <= j < s.len() ==> (#[trigger] s[j] as u32) < 0x80,
    ensures
        byte_slice(s, a, byte_len(s) - b) == Some(s.subrange(a, s.len() - b)),
{
    let e = s.len() - b;
    let pre = s.subrange(0, a);
    let post = s.subrange(e, s.len() as int);
    assert forall|j: int| 0 <= j < pre.len() implies (#[trigger] pre[j] as u32) < 0x80 by {
        assert(pre[j] == s[j]);
    }
    assert forall|j: int| 0 <= j < post.len() implies (#[trigger] post[j] as u32) < 0x80 by {
        assert(post[j] == s[e + j]);
    }
    lemma_byte_len_ascii(pre);
    lemma_byte_len_ascii(post);
    lemma_byte_len_concat(s.subrange(0, e), post);
    assert(s.subrange(0, e) + post =~= s);
    lemma_byte_len_prefix(s, a, e);
    lemma_char_index(s, a);
    lemma_char_index(s, e);
}

/// What trimming the start leaves does not start with white space.
proof fn lemma_trim_start_first(s: Seq<char>)
    ensures
        trim_start(s).len() > 0 ==> !is_white_space(trim_start(s)[0]),
    decreases s.len(),
{
    if s.len() > 0 && is_white_space(s[0]) {
        lemma_trim_start_first(s.drop_first());
    }
}

/// Trimming the end keeps a prefix of the text, and what it keeps does not
/// end with white space.
proof fn lemma_trim_end_prefix(s: Seq<char>)
    ensures
        trim_end(s).len() <= s.len(),
        trim_end(s) == s.subrange(0, trim_end(s).len() as int),
        trim_end(s).len() > 0 ==> !is_white_space(trim_end(s).last()),
    decreases s.len(),
{
    if s.len() > 0 && is_white_space(s.last()) {
        lemma_trim_end_prefix(s.drop_last());
        let t = trim_end(s.drop_last());
        assert(s.drop_last().subrange(0, t.len() as int) =~= s.subrange(0, t.len() as int));
    } else {
        assert(s.subrange(0, s.len() as int) =~= s);
    }
}

/// Trimming a trimmed text changes nothing.
pub proof fn lemma_trim_idempotent(s: Seq<char>)
    ensures
        trim(trim(s)) == trim(s),
{
    let u = trim_start(s);
    let v = trim_end(u);
    lemma_trim_start_first(s);
    lemma_trim_end_prefix(u);
    if v.len() > 0 {
        assert(v[0] == u[0]);
        assert(trim_start(v) == v);
        assert(trim_end(v) == v);
    } else {
        assert(trim_start(v) == v);
        assert(trim_end(v) == v);
    }
}

/// A text that neither starts nor ends with white space is its own trim.
pub proof fn lemma_trim_plain(s: Seq<char>)
    requires
        s.len() > 0,
        !is_white_space(s[0]),
        !is_white_space(s.last()),
    ensures
        trim(s) == s,
{
    assert(trim_start(s) == s);
    assert(trim_end(s) == s);
}

/// Trimming a text that does not start with white space keeps its first
/// character.
pub proof fn lemma_trim_keeps_first(s: Seq<char>)
    requires
        s.len() > 0,
        !is_white_space(s[0]),
    ensures
        trim(s).len() >= 1,
        trim(s)[0] == s[0],
    decreases s.len(),
{
    assert(trim_start(s) == s);
    if is_white_space(s.last()) {
        assert(s.len() > 1);
        assert(s.drop_last()[0] == s[0]);
        lemma_trim_keeps_first(s.drop_last());
        assert(trim_start(s.drop_last()) == s.drop_last());
    }
}

/// A text takes at least one byte for each of its characters.
pub proof fn lemma_byte_len_at_least_len(s: Seq<char>)
    ensures
        byte_len(s) >= s.len(),
    decreases s.len(),
{
    if s.len() > 0 {
        lemma_byte_len_at_least_len(s.drop_last());
    }
}

} // verus!
