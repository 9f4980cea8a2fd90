//! The number grammars that literal values are read with: Rust's integer
//! syntax (what `str::parse::<isize>` accepts) and Rust's decimal syntax
//! (what `str::parse::<f64>` accepts).
use vstd::prelude::*;

verus! {

/// An ASCII decimal digit.
pub open spec fn is_ascii_digit(c: char) -> bool {
    '0' <= c && c <= '9'
}

/// Every character of `s` is an ASCII decimal digit.
pub open spec fn ascii_digits(s: Seq<char>) -> bool {
    forall|j: int| 0 <= j < s.len() ==> is_ascii_digit(#[trigger] s[j])
}

/// The number that the ASCII digits `s` write in decimal.
pub open spec fn digits_value(s: Seq<char>) -> int
    decreases s.len(),
{
    if s.len() == 0 {
        0
    } else {
        digits_value(s.drop_last()) * 10 + (s.last() as int - '0' as int)
    }
}

/// The integer that `s` writes in Rust's integer syntax: an optional `+` or
/// `-`, then one or more ASCII digits.
pub open spec fn int_value(s: Seq<char>) -> Option<int> {
    if s.len() > 0 && (s[0] == '+' || s[0] == '-') {
        let d = s.drop_first();
        if d.len() > 0 && ascii_digits(d) {
            Some(
                if s[0] == '-' {
                    -digits_value(d)
                } else {
                    digits_value(d)
                },
            )
        } else {
            None
        }
    } else if s.len() > 0 && ascii_digits(s) {
        Some(digits_value(s))
    } else {
        None
    }
}

/// What `str::parse::<isize>` gives for `s`: the integer it writes, where
/// that fits in an `isize`.
pub open spec fn parsed_isize(s: Seq<char>) -> Option<isize> {
    match int_value(s) {
        Some(v) => if isize::MIN <= v <= isize::MAX {
            Some(v as isize)
        } else {
            None
        },
        None => None,
    }
}

/// The value of digits is never negative.
proof fn lemma_digits_value_nonneg(s: Seq<char>)
    requires
        ascii_digits(s),
    ensures
        digits_value(s) >= 0,
    decreases s.len(),
{
    if s.len() > 0 {
        lemma_digits_value_nonneg(s.drop_last());
    }
}

/// More digits never write a smaller number.
proof fn lemma_digits_value_grows(s: Seq<char>, k: int, m: int)
    requires
        ascii_digits(s),
        0 <= k <= m <= s.len(),
    ensures
        digits_value(s.subrange(0, k)) <= digits_value(s.subrange(0, m)),
    decreases m - k,
{
    if k < m {
        let p = s.subrange(0, m);
        assert(p.drop_last() =~= s.subrange(0, m - 1));
        lemma_digits_value_nonneg(s.subrange(0, m - 1));
        lemma_digits_value_grows(s, k, m - 1);
    }
}

/// Computes `parsed_isize`: reads the integer that `s` writes, where it
/// fits in an `isize`.
pub fn parse_isize(s: &[char]) -> (r: Option<isize>)
    ensures
        r == parsed_isize(s@),
{
    let n = s.len();
    if n == 0 {
        return None;
    }
    let neg = s[0] == '-';
    let start: usize = if s[0] == '+' || s[0] == '-' {
        1
    } else {
        0
    };
    if start == n {
        return None;
    }
    let ghost d = s@.subrange(start as int, n as int);
    proof {
        if start == 1 {
            assert(d =~= s@.drop_first());
        } else {
            assert(d =~= s@);
        }
        assert(d.subrange(0, 0) =~= Seq::<char>::empty());
    }
    let mut acc: isize = 0;
    let mut k: usize = start;
    while k < n
        invariant
            n == s@.len(),
            start <= k <= n,
            d == s@.subrange(start as int, n as int),
            d.len() > 0,
            ascii_digits(d.subrange(0, k - start)),
            acc == (if neg {
                -digits_value(d.subrange(0, k - start))
            } else {
                digits_value(d.subrange(0, k - start))
            }),
            neg == (s@[0] == '-'),
            start == (if s@[0] == '+' || s@[0] == '-' { 1int } else { 0 }),
        decreases n - k,
    {
        let c = s[k];
        if !('0' <= c && c <= '9') {
            proof {
                assert(d[k - start] == c);
            }
            return None;
        }
        let ghost p = d.subrange(0, k + 1 - start);
        proof {
            assert(p.drop_last() =~= d.subrange(0, k - start));
            assert(ascii_digits(p));
        }
        let digit = ((c as u32) - ('0' as u32)) as isize;
        let next = match acc.checked_mul(10) {
            Some(m) => if neg {
                m.checked_sub(digit)
            } else {
                m.checked_add(digit)
            },
            None => None,
        };
        match next {
            Some(v) => {
                acc = v;
            },
            None => {
                proof {
                    if start == 1 {
                        assert(d =~= s@.drop_first());
                    } else {
                        assert(d =~= s@);
                    }
                    assert(digit == c as int - '0' as int);
                    assert(digits_value(p) == digits_value(d.subrange(0, k - start)) * 10 + digit);
                    if ascii_digits(d) {
                        lemma_digits_value_grows(d, k + 1 - start, d.len() as int);
                        assert(d.subrange(0, d.len() as int) =~= d);
                        lemma_digits_value_nonneg(d.subrange(0, k - start));
                    }
                }
                return None;
            },
        }
        k += 1;
    }
    proof {
        assert(d.subrange(0, k - start) =~= d);
    }
    Some(acc)
}

/// A sign: `+` or `-`.
pub open spec fn is_sign(c: char) -> bool {
    c == '+' || c == '-'
}

/// The code of `c` with an ASCII capital letter made small.
pub open spec fn ascii_lower(c: char) -> u32 {
    if 'A' <= c && c <= 'Z' {
        ((c as u32) + 32) as u32
    } else {
        c as u32
    }
}

/// `s` spells the small-letter word `w`, ignoring ASCII case.
pub open spec fn spells(s: Seq<char>, w: Seq<char>) -> bool {
    s.len() == w.len() && forall|j: int| 0 <= j < s.len() ==> ascii_lower(#[trigger] s[j]) == w[j] as u32
}

/// An exponent: `e` or `E`, an optional sign, one or more digits.
pub open spec fn is_exponent(s: Seq<char>) -> bool {
    &&& s.len() >= 2
    &&& (s[0] == 'e' || s[0] == 'E')
    &&& if is_sign(s[1]) {
        s.len() >= 3 && ascii_digits(s.subrange(2, s.len() as int))
    } else {
        ascii_digits(s.subrange(1, s.len() as int))
    }
}

/// A mantissa: one or more digits, or one `.` with digits before and after
/// it, at least one digit in all (on one side of the `.` or the other).
pub open spec fn is_mantissa(m: Seq<char>) -> bool {
    ||| m.len() > 0 && ascii_digits(m)
    ||| exists|p: int|
        0 <= p < m.len() && #[trigger] m[p] == '.' && m.len() >= 2 && ascii_digits(
            m.subrange(0, p),
        ) && ascii_digits(m.subrange(p + 1, m.len() as int))
}

/// A number: a mantissa and an optional exponent.
pub open spec fn is_number(s: Seq<char>) -> bool {
    exists|e: int|
        0 <= e <= s.len() && #[trigger] is_mantissa(s.subrange(0, e)) && (e == s.len()
            || is_exponent(s.subrange(e, s.len() as int)))
}

/// Rust's decimal syntax, what `str::parse::<f64>` accepts: an optional
/// sign, then `inf`, `infinity`, `nan` (in any ASCII case) or a number.
pub open spec fn is_float_text(s: Seq<char>) -> bool {
    let body = if s.len() > 0 && is_sign(s[0]) {
        s.drop_first()
    } else {
        s
    };
    ||| spells(body, seq!['i', 'n', 'f'])
    ||| spells(body, seq!['i', 'n', 'f', 'i', 'n', 'i', 't', 'y'])
    ||| spells(body, seq!['n', 'a', 'n'])
    ||| is_number(body)
}

/// Whether `s` from `from` to `to` spells `w` ignoring ASCII case, `w`
/// being in small letters.
fn spells_at(s: &[char], from: usize, to: usize, w: &[char]) -> (r: bool)
    requires
        from <= to <= s@.len(),
    ensures
        r == spells(s@.subrange(from as int, to as int), w@),
{
    if to - from != w.len() {
        return false;
    }
    let mut j: usize = 0;
    while j < w.len()
        invariant
            to - from == w@.len(),
            from <= to <= s@.len(),
            j <= w@.len(),
            forall|k: int| 0 <= k < j ==> ascii_lower(#[trigger] s@[from + k]) == w@[k] as u32,
        decreases w@.len() - j,
    {
        let c = s[from + j];
        let lower: u32 = if 'A' <= c && c <= 'Z' {
            (c as u32) + 32
        } else {
            c as u32
        };
        if lower != w[j] as u32 {
            proof {
                assert(s@.subrange(from as int, to as int)[j as int] == c);
            }
            return false;
        }
        j += 1;
    }
    proof {
        let t = s@.subrange(from as int, to as int);
        assert forall|k: int| 0 <= k < t.len() implies ascii_lower(#[trigger] t[k]) == w@[k] as u32 by {
            assert(t[k] == s@[from + k]);
        }
    }
    true
}

/// Whether `s` from `from` to `to` is all ASCII digits.
fn digits_at(s: &[char], from: usize, to: usize) -> (r: bool)
    requires
        from <= to <= s@.len(),
    ensures
        r == ascii_digits(s@.subrange(from as int, to as int)),
{
    let mut j: usize = from;
    while j < to
        invariant
            from <= j <= to <= s@.len(),
            forall|k: int| from <= k < j ==> is_ascii_digit(#[trigger] s@[k]),
        decreases to - j,
    {
        if !('0' <= s[j] && s[j] <= '9') {
            proof {
                assert(s@.subrange(from as int, to as int)[j - from] == s@[j as int]);
            }
            return false;
        }
        j += 1;
    }
    proof {
        let t = s@.subrange(from as int, to as int);
        assert forall|k: int| 0 <= k < t.len() implies is_ascii_digit(#[trigger] t[k]) by {
            assert(t[k] == s@[from + k]);
        }
    }
    true
}

/// Whether `s` from `from` to `to` is a mantissa.
fn mantissa_at(s: &[char], from: usize, to: usize) -> (r: bool)
    requires
        from <= to <= s@.len(),
    ensures
        r == is_mantissa(s@.subrange(from as int, to as int)),
{
    let ghost m = s@.subrange(from as int, to as int);
    let mut p: usize = from;
    while p < to && s[p] != '.'
        invariant
            from <= p <= to <= s@.len(),
            forall|k: int| from <= k < p ==> s@[k] != '.',
        decreases to - p,
    {
        p += 1;
    }
    if p == to {
        let r = to > from && digits_at(s, from, to);
        proof {
            if !r && to > from {
                assert forall|q: int| 0 <= q < m.len() && #[trigger] m[q] == '.' implies false by {
                    assert(m[q] == s@[from + q]);
                }
            }
        }
        return r;
    }
    let r = to - from >= 2 && digits_at(s, from, p) && digits_at(s, p + 1, to);
    proof {
        let q0 = p - from;
        assert(m[q0] == '.');
        assert(m.subrange(0, q0) =~= s@.subrange(from as int, p as int));
        assert(m.subrange(q0 + 1, m.len() as int) =~= s@.subrange(p + 1, to as int));
        assert(!ascii_digits(m)) by {
            assert(!is_ascii_digit(m[q0]));
        }
        if !r {
            assert forall|q: int| 0 <= q < m.len() && #[trigger] m[q] == '.' implies !(m.len() >= 2
                && ascii_digits(m.subrange(0, q)) && ascii_digits(
                m.subrange(q + 1, m.len() as int),
            )) by {
                if q < q0 {
                    assert(m[q] == s@[from + q]);
                } else if q > q0 {
                    assert(m.subrange(0, q)[q0] == m[q0]);
                }
            }
        }
    }
    r
}

/// Whether `s` from `from` to `to` is an exponent.
fn exponent_at(s: &[char], from: usize, to: usize) -> (r: bool)
    requires
        from <= to <= s@.len(),
    ensures
        r == is_exponent(s@.subrange(from as int, to as int)),
{
    let ghost x = s@.subrange(from as int, to as int);
    if to - from < 2 || !(s[from] == 'e' || s[from] == 'E') {
        return false;
    }
    proof {
        assert(x[0] == s@[from as int]);
        assert(x[1] == s@[from + 1]);
        assert(x.subrange(2, x.len() as int) =~= s@.subrange(from + 2, to as int));
        assert(x.subrange(1, x.len() as int) =~= s@.subrange(from + 1, to as int));
    }
    if s[from + 1] == '+' || s[from + 1] == '-' {
        to - from >= 3 && digits_at(s, from + 2, to)
    } else {
        digits_at(s, from + 1, to)
    }
}

/// Computes `is_float_text`: whether `str::parse::<f64>` accepts `s`.
pub fn float_text(s: &[char]) -> (r: bool)
    ensures
        r == is_float_text(s@),
{
    let n = s.len();
    let start: usize = if n > 0 && (s[0] == '+' || s[0] == '-') {
        1
    } else {
        0
    };
    let ghost body = s@.subrange(start as int, n as int);
    proof {
        if start == 1 {
            assert(body =~= s@.drop_first());
        } else {
            assert(body =~= s@);
        }
    }
    let inf: [char; 3] = ['i', 'n', 'f'];
    let infinity: [char; 8] = ['i', 'n', 'f', 'i', 'n', 'i', 't', 'y'];
    let nan: [char; 3] = ['n', 'a', 'n'];
    proof {
        assert(inf@ =~= seq!['i', 'n', 'f']);
        assert(infinity@ =~= seq!['i', 'n', 'f', 'i', 'n', 'i', 't', 'y']);
        assert(nan@ =~= seq!['n', 'a', 'n']);
    }
    if spells_at(s, start, n, &inf) || spells_at(s, start, n, &infinity) || spells_at(
        s,
        start,
        n,
        &nan,
    ) {
        return true;
    }
    let mut e: usize = start;
    while e < n && s[e] != 'e' && s[e] != 'E'
        invariant
            start <= e <= n == s@.len(),
            forall|k: int| start <= k < e ==> s@[k] != 'e' && s@[k] != 'E',
        decreases n - e,
    {
        e += 1;
    }
    let r = mantissa_at(s, start, e) && (e == n || exponent_at(s, e, n));
    proof {
        let e0 = e - start;
        assert(body.subrange(0, e0) =~= s@.subrange(start as int, e as int));
        assert(body.subrange(e0, body.len() as int) =~= s@.subrange(e as int, n as int));
        if !r {
            assert forall|f: int|
                0 <= f <= body.len() && #[trigger] is_mantissa(body.subrange(0, f)) implies !(f
                == body.len() || is_exponent(body.subrange(f, body.len() as int))) by {
                if f < e0 {
                    assert(body.subrange(f, body.len() as int)[0] == s@[start + f]);
                } else if f > e0 {
                    let m = body.subrange(0, f);
                    assert(m[e0] == s@[e as int]);
                    if is_mantissa(m) {
                        if m.len() > 0 && ascii_digits(m) {
                            assert(is_ascii_digit(m[e0]));
                        } else {
                            let q = choose|q: int|
                                0 <= q < m.len() && #[trigger] m[q] == '.' && m.len() >= 2
                                    && ascii_digits(m.subrange(0, q)) && ascii_digits(
                                    m.subrange(q + 1, m.len() as int),
                                );
                            if e0 < q {
                                assert(m.subrange(0, q)[e0] == m[e0]);
                            } else if e0 > q {
                                assert(m.subrange(q + 1, m.len() as int)[e0 - q - 1] == m[e0]);
                            }
                        }
                    }
                }
            }
        }
    }
    r
}

} // verus!
