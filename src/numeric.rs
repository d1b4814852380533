//! The syntax of numeric cell text: unsigned decimal integers as
//! `u64::from_str` reads them, and floating-point literals as
//! `f64::from_str` documents its grammar:
//!
//! ```text
//! Float  ::= Sign? ( 'inf' | 'infinity' | 'nan' | Number )
//! Number ::= ( Digit+ | Digit+ '.' Digit* | Digit* '.' Digit+ ) Exp?
//! Exp    ::= 'e' Sign? Digit+
//! ```
//!
//! where letters match in either case.
use vstd::prelude::*;
use vstd::string::*;

verus! {

pub open spec fn is_digit(c: char) -> bool {
    48 <= c as u32 && c as u32 <= 57
}

pub open spec fn all_digits(s: Seq<char>) -> bool {
    forall|i: int| 0 <= i < s.len() ==> is_digit(#[trigger] s[i])
}

/// One digit or more.
pub open spec fn is_digit_run(s: Seq<char>) -> bool {
    s.len() > 0 && all_digits(s)
}

pub open spec fn digit_value(c: char) -> nat {
    (c as u32 - 48) as nat
}

/// The number that a run of decimal digits writes.
pub open spec fn digits_value(s: Seq<char>) -> nat
    decreases s.len(),
{
    if s.len() == 0 {
        0
    } else {
        10 * digits_value(s.drop_last()) + digit_value(s.last())
    }
}

pub open spec fn digit_char(d: nat) -> char {
    seq!['0', '1', '2', '3', '4', '5', '6', '7', '8', '9'][d as int]
}

/// The shortest decimal text of `n`.
pub open spec fn decimal(n: nat) -> Seq<char>
    decreases n,
{
    if n < 10 {
        seq![digit_char(n)]
    } else {
        decimal(n / 10).push(digit_char(n % 10))
    }
}

/// The text after one leading `+`, if there is one.
pub open spec fn after_plus(s: Seq<char>) -> Seq<char> {
    if s.len() > 0 && s[0] == '+' {
        s.drop_first()
    } else {
        s
    }
}

/// What `u64::from_str` reads from `s`: an optional `+`, then one digit or
/// more whose value fits in 64 bits.
pub open spec fn parse_uint(s: Seq<char>) -> Option<u64> {
    let d = after_plus(s);
    if is_digit_run(d) && digits_value(d) <= u64::MAX {
        Some(digits_value(d) as u64)
    } else {
        None
    }
}

pub open spec fn is_sign(c: char) -> bool {
    c == '+' || c == '-'
}

/// The text after one leading sign, if there is one.
pub open spec fn after_sign(s: Seq<char>) -> Seq<char> {
    if s.len() > 0 && is_sign(s[0]) {
        s.drop_first()
    } else {
        s
    }
}

/// Digits with at most one point among them, and a digit on at least one
/// side of the point.
pub open spec fn is_mantissa(m: Seq<char>) -> bool {
    is_digit_run(m) || exists|d: int|
        0 <= d < m.len() && #[trigger] m[d] == '.' && m.len() >= 2 && all_digits(m.take(d))
            && all_digits(m.skip(d + 1))
}

pub open spec fn is_exponent_mark(c: char) -> bool {
    c == 'e' || c == 'E'
}

/// A number without sign: a mantissa, then possibly an exponent mark and a
/// signed run of digits.
pub open spec fn is_decimal_number(s: Seq<char>) -> bool {
    is_mantissa(s) || exists|e: int|
        0 <= e < s.len() && #[trigger] is_exponent_mark(s[e]) && is_mantissa(s.take(e))
            && is_digit_run(after_sign(s.skip(e + 1)))
}

/// `c` is the lower-case ASCII letter `l` in either case.
pub open spec fn same_letter(c: char, l: char) -> bool {
    c == l || c as u32 + 32 == l as u32
}

/// `s` spells the lower-case word `w`, letters in either case.
pub open spec fn spells(s: Seq<char>, w: Seq<char>) -> bool {
    s.len() == w.len() && forall|i: int| 0 <= i < s.len() ==> same_letter(#[trigger] s[i], w[i])
}

pub open spec fn is_special_value(s: Seq<char>) -> bool {
    spells(s, seq!['i', 'n', 'f']) || spells(s, seq!['i', 'n', 'f', 'i', 'n', 'i', 't', 'y'])
        || spells(s, seq!['n', 'a', 'n'])
}

/// Text that `f64::from_str` accepts.
pub open spec fn is_float_literal(s: Seq<char>) -> bool {
    is_decimal_number(after_sign(s)) || is_special_value(after_sign(s))
}

pub fn is_digit_char(c: char) -> (r: bool)
    ensures
        r == is_digit(c),
{
    48 <= c as u32 && c as u32 <= 57
}

proof fn lemma_prefix_value_le(s: Seq<char>, m: int)
    requires
        0 <= m <= s.len(),
    ensures
        digits_value(s.take(m)) <= digits_value(s),
    decreases s.len(),
{
    if m < s.len() {
        assert(s.drop_last().take(m) =~= s.take(m));
        lemma_prefix_value_le(s.drop_last(), m);
    } else {
        assert(s.take(m) =~= s);
    }
}

/// Reads `s` as `u64::from_str` does: `None` where that returns an error.
pub fn parse_u64(s: &str) -> (r: Option<u64>)
    ensures
        r == parse_uint(s@),
{
    let n = s.unicode_len();
    let start: usize = if n > 0 && s.get_char(0) == '+' { 1 } else { 0 };
    let ghost d = after_plus(s@);
    assert(d =~= s@.subrange(start as int, n as int));
    if start == n {
        return None;
    }
    let mut v: u64 = 0;
    let mut i: usize = start;
    while i < n
        invariant
            start <= i <= n,
            n == s@.len(),
            d == after_plus(s@),
            d =~= s@.subrange(start as int, n as int),
            all_digits(d.take(i - start)),
            v == digits_value(d.take(i - start)),
        decreases n - i,
    {
        let c = s.get_char(i);
        let ghost k = (i - start) as int;
        assert(d.take(k + 1).drop_last() =~= d.take(k));
        assert(d.take(k + 1).last() == c);
        assert(d[k] == c);
        if !is_digit_char(c) {
            assert(!all_digits(d));
            return None;
        }
        let dv = (c as u32 - 48) as u64;
        let next = match v.checked_mul(10) {
            Some(t) => t.checked_add(dv),
            None => None,
        };
        match next {
            Some(t) => {
                v = t;
            },
            None => {
                proof {
                    assert(digits_value(d.take(k + 1)) == 10 * v + dv);
                    lemma_prefix_value_le(d, k + 1);
                }
                return None;
            },
        }
        i = i + 1;
    }
    assert(d.take(n - start) =~= d);
    Some(v)
}

/// Whether the characters of `s` from `lo` up to `hi` are all digits.
fn digits_between(s: &str, lo: usize, hi: usize) -> (r: bool)
    requires
        lo <= hi <= s@.len(),
    ensures
        r == all_digits(s@.subrange(lo as int, hi as int)),
{
    let mut i: usize = lo;
    while i < hi
        invariant
            lo <= i <= hi <= s@.len(),
            all_digits(s@.subrange(lo as int, i as int)),
        decreases hi - i,
    {
        let c = s.get_char(i);
        if !is_digit_char(c) {
            assert(s@.subrange(lo as int, hi as int)[i - lo] == c);
            return false;
        }
        assert forall|j: int| 0 <= j < i + 1 - lo implies is_digit(
            #[trigger] s@.subrange(lo as int, i + 1)[j],
        ) by {
            if j < i - lo {
                assert(s@.subrange(lo as int, i + 1)[j] == s@.subrange(lo as int, i as int)[j]);
            }
        }
        i = i + 1;
    }
    true
}

/// The first position from `lo` up to `hi` that holds `a` or `b`; `hi` if
/// there is none.
fn first_of(s: &str, lo: usize, hi: usize, a: char, b: char) -> (r: usize)
    requires
        lo <= hi <= s@.len(),
    ensures
        lo <= r <= hi,
        forall|i: int| lo <= i < r ==> s@[i] != a && s@[i] != b,
        r < hi ==> (s@[r as int] == a || s@[r as int] == b),
{
    let mut i: usize = lo;
    while i < hi
        invariant
            lo <= i <= hi <= s@.len(),
            forall|k: int| lo <= k < i ==> s@[k] != a && s@[k] != b,
        decreases hi - i,
    {
        let c = s.get_char(i);
        if c == a || c == b {
            return i;
        }
        i = i + 1;
    }
    hi
}

/// A mantissa holds digits and points only.
pub proof fn lemma_mantissa_chars(m: Seq<char>)
    requires
        is_mantissa(m),
    ensures
        forall|i: int| 0 <= i < m.len() ==> is_digit(#[trigger] m[i]) || m[i] == '.',
{
    if !is_digit_run(m) {
        let d = choose|d: int|
            0 <= d < m.len() && #[trigger] m[d] == '.' && m.len() >= 2 && all_digits(m.take(d))
                && all_digits(m.skip(d + 1));
        assert forall|i: int| 0 <= i < m.len() implies is_digit(#[trigger] m[i]) || m[i]
            == '.' by {
            if i < d {
                assert(m.take(d)[i] == m[i]);
            } else if i > d {
                assert(m.skip(d + 1)[i - d - 1] == m[i]);
            }
        }
    }
}

/// Whether the characters from `lo` up to `hi` form a mantissa.
fn mantissa_between(s: &str, lo: usize, hi: usize) -> (r: bool)
    requires
        lo <= hi <= s@.len(),
    ensures
        r == is_mantissa(s@.subrange(lo as int, hi as int)),
{
    let ghost m = s@.subrange(lo as int, hi as int);
    let d = first_of(s, lo, hi, '.', '.');
    if d == hi {
        assert forall|k: int| 0 <= k < m.len() implies #[trigger] m[k] != '.' by {
            assert(m[k] == s@[lo + k]);
        }
        hi > lo && digits_between(s, lo, hi)
    } else {
        let ghost dm = d - lo;
        assert(m[dm] == '.');
        assert(m.take(dm) =~= s@.subrange(lo as int, d as int));
        assert(m.skip(dm + 1) =~= s@.subrange(d + 1, hi as int));
        assert(!is_digit(m[dm]));
        let r = hi - lo >= 2 && digits_between(s, lo, d) && digits_between(s, d + 1, hi);
        if !r {
            assert forall|d2: int|
                0 <= d2 < m.len() && #[trigger] m[d2] == '.' && m.len() >= 2 implies !(all_digits(
                m.take(d2),
            ) && all_digits(m.skip(d2 + 1))) by {
                if d2 < dm {
                    assert(s@[lo + d2] == m[d2]);
                } else if d2 > dm {
                    assert(m.take(d2)[dm] == '.');
                }
            }
        }
        r
    }
}

/// Whether the characters from `lo` up to `hi` form a signed run of digits.
fn exponent_digits_between(s: &str, lo: usize, hi: usize) -> (r: bool)
    requires
        lo <= hi <= s@.len(),
    ensures
        r == is_digit_run(after_sign(s@.subrange(lo as int, hi as int))),
{
    let ghost x = s@.subrange(lo as int, hi as int);
    let k: usize = if lo < hi && (s.get_char(lo) == '+' || s.get_char(lo) == '-') {
        lo + 1
    } else {
        lo
    };
    assert(after_sign(x) =~= s@.subrange(k as int, hi as int));
    k < hi && digits_between(s, k, hi)
}

/// Whether the characters from `lo` up to `hi` form an unsigned number.
fn decimal_between(s: &str, lo: usize, hi: usize) -> (r: bool)
    requires
        lo <= hi <= s@.len(),
    ensures
        r == is_decimal_number(s@.subrange(lo as int, hi as int)),
{
    let ghost x = s@.subrange(lo as int, hi as int);
    let e = first_of(s, lo, hi, 'e', 'E');
    if e == hi {
        assert forall|k: int| 0 <= k < x.len() implies !is_exponent_mark(#[trigger] x[k]) by {
            assert(x[k] == s@[lo + k]);
        }
        mantissa_between(s, lo, hi)
    } else {
        let ghost em = e - lo;
        assert(is_exponent_mark(x[em]));
        assert(x.take(em) =~= s@.subrange(lo as int, e as int));
        assert(x.skip(em + 1) =~= s@.subrange(e + 1, hi as int));
        proof {
            if is_mantissa(x) {
                lemma_mantissa_chars(x);
            }
        }
        let r = mantissa_between(s, lo, e) && exponent_digits_between(s, e + 1, hi);
        if !r {
            assert forall|e2: int|
                0 <= e2 < x.len() && #[trigger] is_exponent_mark(x[e2]) implies !(is_mantissa(
                x.take(e2),
            ) && is_digit_run(after_sign(x.skip(e2 + 1)))) by {
                if e2 < em {
                    assert(s@[lo + e2] == x[e2]);
                } else if e2 > em {
                    if is_mantissa(x.take(e2)) {
                        lemma_mantissa_chars(x.take(e2));
                        assert(x.take(e2)[em] == x[em]);
                    }
                }
            }
        }
        r
    }
}

fn letter_is(c: char, l: char) -> (r: bool)
    requires
        97 <= l as u32 <= 122,
    ensures
        r == same_letter(c, l),
{
    c == l || c as u32 + 32 == l as u32
}

/// Whether the characters from `lo` up to `hi` spell "inf", "infinity" or
/// "nan", letters in either case.
fn special_between(s: &str, lo: usize, hi: usize) -> (r: bool)
    requires
        lo <= hi <= s@.len(),
    ensures
        r == is_special_value(s@.subrange(lo as int, hi as int)),
{
    let ghost x = s@.subrange(lo as int, hi as int);
    let ghost inf = seq!['i', 'n', 'f'];
    let ghost infinity = seq!['i', 'n', 'f', 'i', 'n', 'i', 't', 'y'];
    let ghost nan = seq!['n', 'a', 'n'];
    let n = hi - lo;
    if n == 3 {
        assert(x[0] == s@[lo as int] && x[1] == s@[lo + 1] && x[2] == s@[lo + 2]);
        let (a, b, c) = (s.get_char(lo), s.get_char(lo + 1), s.get_char(lo + 2));
        let is_inf = letter_is(a, 'i') && letter_is(b, 'n') && letter_is(c, 'f');
        let is_nan = letter_is(a, 'n') && letter_is(b, 'a') && letter_is(c, 'n');
        assert(spells(x, inf) == is_inf) by {
            if is_inf {
                assert forall|i: int| 0 <= i < x.len() implies same_letter(#[trigger] x[i], inf[i]) by {
                    assert(i == 0 || i == 1 || i == 2);
                }
            }
        }
        assert(spells(x, nan) == is_nan) by {
            if is_nan {
                assert forall|i: int| 0 <= i < x.len() implies same_letter(#[trigger] x[i], nan[i]) by {
                    assert(i == 0 || i == 1 || i == 2);
                }
            }
        }
        is_inf || is_nan
    } else if n == 8 {
        let mut i: usize = 0;
        while i < 8
            invariant
                i <= 8,
                hi - lo == 8,
                lo <= hi <= s@.len(),
                x == s@.subrange(lo as int, hi as int),
                infinity == seq!['i', 'n', 'f', 'i', 'n', 'i', 't', 'y'],
                forall|k: int| 0 <= k < i ==> same_letter(#[trigger] x[k], infinity[k]),
            decreases 8 - i,
        {
            let l = if i == 0 || i == 3 || i == 5 {
                'i'
            } else if i == 1 || i == 4 {
                'n'
            } else if i == 2 {
                'f'
            } else if i == 6 {
                't'
            } else {
                'y'
            };
            assert(l == infinity[i as int]);
            assert(x[i as int] == s@[lo + i]);
            if !letter_is(s.get_char(lo + i), l) {
                return false;
            }
            i = i + 1;
        }
        true
    } else {
        false
    }
}

/// Whether `f64::from_str` accepts `s`.
pub fn is_float_text(s: &str) -> (r: bool)
    ensures
        r == is_float_literal(s@),
{
    let n = s.unicode_len();
    let k: usize = if n > 0 && (s.get_char(0) == '+' || s.get_char(0) == '-') {
        1
    } else {
        0
    };
    assert(after_sign(s@) =~= s@.subrange(k as int, n as int));
    decimal_between(s, k, n) || special_between(s, k, n)
}

fn digit_text(d: u64) -> (r: &'static str)
    requires
        d < 10,
    ensures
        r@ == seq![digit_char(d as nat)],
{
    proof {
        reveal_strlit("0");
        reveal_strlit("1");
        reveal_strlit("2");
        reveal_strlit("3");
        reveal_strlit("4");
        reveal_strlit("5");
        reveal_strlit("6");
        reveal_strlit("7");
        reveal_strlit("8");
        reveal_strlit("9");
    }
    let r = match d {
        0 => "0",
        1 => "1",
        2 => "2",
        3 => "3",
        4 => "4",
        5 => "5",
        6 => "6",
        7 => "7",
        8 => "8",
        _ => "9",
    };
    assert(r@ =~= seq![digit_char(d as nat)]);
    r
}

/// Appends the decimal text of `n` to `out`.
pub fn push_decimal(out: &mut String, n: u64)
    ensures
        final(out)@ == old(out)@ + decimal(n as nat),
    decreases n,
{
    if n >= 10 {
        push_decimal(out, n / 10);
    }
    out.append(digit_text(n % 10));
    if n >= 10 {
        assert(decimal(n as nat) == decimal((n / 10) as nat).push(digit_char((n % 10) as nat)));
    }
    assert(final(out)@ =~= old(out)@ + decimal(n as nat));
}

proof fn lemma_digit_char(d: nat)
    requires
        d < 10,
    ensures
        is_digit(digit_char(d)),
        digit_value(digit_char(d)) == d,
{
    let ds = seq!['0', '1', '2', '3', '4', '5', '6', '7', '8', '9'];
    assert(ds[0] == '0' && ds[1] == '1' && ds[2] == '2' && ds[3] == '3' && ds[4] == '4');
    assert(ds[5] == '5' && ds[6] == '6' && ds[7] == '7' && ds[8] == '8' && ds[9] == '9');
}

/// The digits of `decimal(n)` read back give `n`.
pub proof fn lemma_decimal_value(n: nat)
    ensures
        is_digit_run(decimal(n)),
        digits_value(decimal(n)) == n,
    decreases n,
{
    lemma_digit_char(n % 10);
    if n < 10 {
        assert(seq![digit_char(n)].drop_last() =~= Seq::<char>::empty());
        assert(digits_value(Seq::<char>::empty()) == 0);
        assert(decimal(n) == seq![digit_char(n)]);
    } else {
        lemma_decimal_value(n / 10);
        let d = decimal(n);
        assert(d.drop_last() =~= decimal(n / 10));
        assert(forall|i: int| 0 <= i < d.len() - 1 ==> d[i] == decimal(n / 10)[i]);
        assert(n == 10 * (n / 10) + n % 10);
        assert(d.last() == digit_char(n % 10));
        assert(digits_value(d) == 10 * digits_value(decimal(n / 10)) + digit_value(digit_char(n % 10)));
    }
}

/// `u64::from_str` reads back the decimal text of every `u64`.
pub proof fn lemma_parse_decimal(n: u64)
    ensures
        parse_uint(decimal(n as nat)) == Some(n),
{
    lemma_decimal_value(n as nat);
    assert(decimal(n as nat)[0] != '+');
}

} // verus!
