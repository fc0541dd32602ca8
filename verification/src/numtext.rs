//! Numeric values carried as source text: parsing, rendering, and the
//! positional-value lemmas that connect digit strings to integers.

use vstd::prelude::*;
use vstd::arithmetic::power::{pow, lemma_pow_positive};
use crate::strutil::{str_chars, ascii_chars_to_string};

verus! {

pub open spec fn pow10(e: nat) -> int {
    pow(10, e)
}

pub open spec fn is_digit(c: char) -> bool {
    '0' <= c && c <= '9'
}

/// The numeric value of a digit character.
pub open spec fn digit_of(c: char) -> int {
    (c as u32) as int - 48
}

pub open spec fn digit_char(d: int) -> char {
    if d == 0 {
        '0'
    } else if d == 1 {
        '1'
    } else if d == 2 {
        '2'
    } else if d == 3 {
        '3'
    } else if d == 4 {
        '4'
    } else if d == 5 {
        '5'
    } else if d == 6 {
        '6'
    } else if d == 7 {
        '7'
    } else if d == 8 {
        '8'
    } else {
        '9'
    }
}

pub open spec fn all_digits(s: Seq<char>) -> bool {
    forall|i: int| 0 <= i < s.len() ==> is_digit(#[trigger] s[i])
}

/// The integer a digit string denotes, most significant digit first.
pub open spec fn digits_val(s: Seq<char>) -> int
    decreases s.len(),
{
    if s.len() == 0 {
        0
    } else {
        digits_val(s.drop_last()) * 10 + digit_of(s.last())
    }
}

pub proof fn lemma_digits_val_nonneg(s: Seq<char>)
    requires
        all_digits(s),
    ensures
        digits_val(s) >= 0,
    decreases s.len(),
{
    if s.len() > 0 {
        assert(all_digits(s.drop_last()));
        lemma_digits_val_nonneg(s.drop_last());
    }
}

pub proof fn lemma_digits_val_concat(a: Seq<char>, b: Seq<char>)
    ensures
        digits_val(a + b) == digits_val(a) * pow10(b.len()) + digits_val(b),
    decreases b.len(),
{
    if b.len() == 0 {
        assert(a + b =~= a);
        assert(pow10(0) == 1) by { reveal(pow); }
    } else {
        lemma_digits_val_concat(a, b.drop_last());
        assert((a + b).drop_last() =~= a + b.drop_last());
        assert((a + b).last() == b.last());
        assert(pow10(b.len()) == 10 * pow10((b.len() - 1) as nat)) by {
            reveal(pow);
        }
        assert((digits_val(a) * pow10((b.len() - 1) as nat) + digits_val(b.drop_last())) * 10
            == digits_val(a) * (10 * pow10((b.len() - 1) as nat)) + digits_val(b.drop_last()) * 10)
            by (nonlinear_arith);
    }
}

pub proof fn lemma_digits_val_bound(s: Seq<char>)
    requires
        all_digits(s),
    ensures
        0 <= digits_val(s) < pow10(s.len()),
    decreases s.len(),
{
    if s.len() == 0 {
        assert(pow10(0) == 1) by { reveal(pow); }
    } else {
        assert(all_digits(s.drop_last()));
        lemma_digits_val_bound(s.drop_last());
        assert(pow10(s.len()) == 10 * pow10((s.len() - 1) as nat)) by {
            reveal(pow);
        }
        assert(digits_val(s.drop_last()) <= pow10((s.len() - 1) as nat) - 1);
        assert(digits_val(s.drop_last()) * 10 <= (pow10((s.len() - 1) as nat) - 1) * 10)
            by (nonlinear_arith)
            requires digits_val(s.drop_last()) <= pow10((s.len() - 1) as nat) - 1,
        ;
    }
}

/// A digit string's value dominates the value of any of its prefixes.
pub proof fn lemma_digits_val_prefix(a: Seq<char>, b: Seq<char>)
    requires
        all_digits(a),
        all_digits(b),
    ensures
        digits_val(a + b) >= digits_val(a),
{
    lemma_digits_val_concat(a, b);
    lemma_digits_val_nonneg(a);
    lemma_digits_val_nonneg(b);
    lemma_pow_positive(10, b.len());
    assert(digits_val(a) * pow10(b.len()) >= digits_val(a) * 1) by (nonlinear_arith)
        requires digits_val(a) >= 0, pow10(b.len()) >= 1,
    ;
}

/// Integer literals: an optional sign, then at least one digit.
pub open spec fn is_int_text(s: Seq<char>) -> bool {
    &&& s.len() > 0
    &&& if s[0] == '-' || s[0] == '+' {
        s.len() > 1 && all_digits(s.skip(1))
    } else {
        all_digits(s)
    }
}

pub open spec fn int_text_val(s: Seq<char>) -> int {
    if s.len() == 0 {
        0
    } else if s[0] == '-' {
        -digits_val(s.skip(1))
    } else if s[0] == '+' {
        digits_val(s.skip(1))
    } else {
        digits_val(s)
    }
}

/// What `str::parse::<i32>` returns on a plain decimal literal.
pub open spec fn spec_parse_i32(s: Seq<char>) -> Option<i32> {
    if is_int_text(s) && -0x8000_0000 <= int_text_val(s) <= 0x7fff_ffff {
        Some(int_text_val(s) as i32)
    } else {
        None
    }
}

fn exec_digit_of(c: char) -> (d: u64)
    requires
        is_digit(c),
    ensures
        d == digit_of(c),
        d <= 9,
{
    (c as u32 - 48) as u64
}

/// Parses a signed 32-bit integer from decimal text.
pub fn parse_i32(s: &str) -> (r: Option<i32>)
    ensures
        r == spec_parse_i32(s@),
{
    let cs = str_chars(s);
    let n = cs.len();
    if n == 0 {
        return None;
    }
    let c0 = cs[0];
    let neg = c0 == '-';
    let start: usize = if c0 == '-' || c0 == '+' { 1 } else { 0 };
    if start == n {
        return None;
    }
    let ghost digits = s@.skip(start as int);
    let mut acc: u64 = 0;
    let mut j: usize = start;
    while j < n
        invariant
            cs@ == s@,
            n == cs@.len(),
            start < n,
            start <= j <= n,
            start == (if s@[0] == '-' || s@[0] == '+' { 1int } else { 0int }),
            digits == s@.skip(start as int),
            all_digits(digits.take(j - start)),
            acc == digits_val(digits.take(j - start)),
            acc <= 0x8000_0000,
        decreases n - j,
    {
        let c = cs[j];
        if !(c >= '0' && c <= '9') {
            proof {
                assert(!is_digit(digits[j - start]));
                assert(!all_digits(digits));
                if s@[0] != '-' && s@[0] != '+' {
                    assert(digits =~= s@);
                }
                assert(!is_int_text(s@));
            }
            return None;
        }
        let d = exec_digit_of(c);
        acc = acc * 10 + d;
        proof {
            assert(digits.take(j + 1 - start).drop_last() =~= digits.take(j - start));
            assert(all_digits(digits.take(j + 1 - start)));
        }
        j += 1;
        if acc > 0x8000_0000 {
            proof {
                // If the remaining characters are all digits, the full value's
                // magnitude is at least `acc`, which is out of range.
                if is_int_text(s@) {
                    if s@[0] != '-' && s@[0] != '+' {
                        assert(digits =~= s@);
                    }
                    assert(all_digits(digits));
                    assert(digits =~= digits.take(j - start) + digits.skip(j - start));
                    assert(all_digits(digits.take(j - start)));
                    assert(all_digits(digits.skip(j - start)));
                    lemma_digits_val_prefix(digits.take(j - start), digits.skip(j - start));
                    assert(digits_val(digits) >= acc);
                    if s@[0] == '-' {
                        assert(int_text_val(s@) == -digits_val(digits));
                    } else if s@[0] == '+' {
                        assert(int_text_val(s@) == digits_val(digits));
                    } else {
                        assert(digits =~= s@);
                        assert(int_text_val(s@) == digits_val(digits));
                    }
                }
            }
            return None;
        }
    }
    proof {
        assert(digits.take(n - start) =~= digits);
        if s@[0] != '-' && s@[0] != '+' {
            assert(digits =~= s@);
        }
        assert(is_int_text(s@));
    }
    if neg {
        Some((-(acc as i64)) as i32)
    } else {
        if acc > 0x7fff_ffff {
            None
        } else {
            Some(acc as i32)
        }
    }
}

/// Unsigned byte literals: an optional `+`, then at least one digit.
pub open spec fn spec_parse_u8(s: Seq<char>) -> Option<u8> {
    if is_int_text(s) && s[0] != '-' && 0 <= int_text_val(s) <= 255 {
        Some(int_text_val(s) as u8)
    } else {
        None
    }
}

/// Parses an unsigned 8-bit integer from decimal text.
pub fn parse_u8(s: &str) -> (r: Option<u8>)
    ensures
        r == spec_parse_u8(s@),
{
    let cs = str_chars(s);
    if cs.len() > 0 && cs[0] == '-' {
        return None;
    }
    match parse_i32(s) {
        Some(v) => {
            if 0 <= v && v <= 255 {
                Some(v as u8)
            } else {
                None
            }
        },
        None => {
            proof {
                if is_int_text(s@) && s@[0] != '-' && 0 <= int_text_val(s@) <= 255 {
                    assert(spec_parse_i32(s@) is Some);
                }
            }
            None
        },
    }
}

/// The canonical decimal rendering of a non-negative integer.
pub open spec fn nat_digits_text(n: int) -> Seq<char>
    decreases n,
{
    if n < 10 {
        seq![digit_char(n)]
    } else {
        nat_digits_text(n / 10).push(digit_char(n % 10))
    }
}

/// The canonical decimal rendering of a signed integer.
pub open spec fn int_text(v: int) -> Seq<char> {
    if v < 0 {
        seq!['-'] + nat_digits_text(-v)
    } else {
        nat_digits_text(v)
    }
}

pub proof fn lemma_nat_digits_text_digits(n: int)
    requires
        n >= 0,
    ensures
        all_digits(nat_digits_text(n)),
        nat_digits_text(n).len() > 0,
        digits_val(nat_digits_text(n)) == n,
    decreases n,
{
    if n < 10 {
        assert(nat_digits_text(n) =~= seq![digit_char(n)]);
        assert(seq![digit_char(n)].drop_last() =~= Seq::<char>::empty());
        assert(digits_val(Seq::<char>::empty()) == 0);
        assert(seq![digit_char(n)].last() == digit_char(n));
        assert(digits_val(seq![digit_char(n)]) == digit_of(digit_char(n)));
    } else {
        lemma_nat_digits_text_digits(n / 10);
        let t = nat_digits_text(n / 10).push(digit_char(n % 10));
        assert(t.drop_last() =~= nat_digits_text(n / 10));
        assert(digits_val(t) == (n / 10) * 10 + (n % 10));
        assert((n / 10) * 10 + (n % 10) == n) by (nonlinear_arith)
            requires n >= 0,
        ;
        assert forall|i: int| 0 <= i < t.len() implies is_digit(#[trigger] t[i]) by {
            if i < t.len() - 1 {
                assert(is_digit(nat_digits_text(n / 10)[i]));
            }
        }
    }
}

fn exec_digit_char(d: u64) -> (c: char)
    requires
        d <= 9,
    ensures
        c == digit_char(d as int),
        is_digit(c),
{
    match d {
        0 => '0',
        1 => '1',
        2 => '2',
        3 => '3',
        4 => '4',
        5 => '5',
        6 => '6',
        7 => '7',
        8 => '8',
        _ => '9',
    }
}

fn u64_digits(v: u64) -> (r: Vec<char>)
    ensures
        r@ == nat_digits_text(v as int),
{
    let mut rev: Vec<char> = Vec::new();
    let mut m: u64 = v;
    while m >= 10
        invariant
            nat_digits_text(v as int) =~= nat_digits_text(m as int) + rev@.reverse(),
        decreases m,
    {
        let d = exec_digit_char(m % 10);
        rev.push(d);
        proof {
            assert(rev@.reverse() =~= seq![digit_char(m as int % 10)] + rev@.drop_last().reverse());
            assert(nat_digits_text(m as int) =~= nat_digits_text(m as int / 10) + seq![
                digit_char(m as int % 10),
            ]);
            assert(nat_digits_text(m as int / 10) + (seq![digit_char(m as int % 10)]
                + rev@.drop_last().reverse()) =~= (nat_digits_text(m as int / 10) + seq![
                digit_char(m as int % 10),
            ]) + rev@.drop_last().reverse());
        }
        m = m / 10;
    }
    let mut out: Vec<char> = Vec::new();
    out.push(exec_digit_char(m));
    proof {
        assert(out@ =~= nat_digits_text(m as int));
    }
    let k = rev.len();
    let mut i: usize = 0;
    while i < k
        invariant
            k == rev@.len(),
            i <= k,
            out@ =~= nat_digits_text(m as int) + rev@.reverse().take(i as int),
        decreases k - i,
    {
        out.push(rev[k - 1 - i]);
        proof {
            assert(rev@.reverse()[i as int] == rev@[k - 1 - i]);
            assert(out@ =~= nat_digits_text(m as int) + rev@.reverse().take(i + 1));
        }
        i += 1;
    }
    proof {
        assert(rev@.reverse().take(k as int) =~= rev@.reverse());
    }
    out
}

proof fn lemma_nat_digits_text_ascii(n: int)
    requires
        n >= 0,
    ensures
        vstd::utf8::is_ascii_chars(nat_digits_text(n)),
{
    lemma_nat_digits_text_digits(n);
    assert forall|i: int|
        0 <= i < nat_digits_text(n).len() implies '\0' <= #[trigger] nat_digits_text(n)[i]
        <= '\u{7f}' by {
        assert(is_digit(nat_digits_text(n)[i]));
    }
}

/// Renders a signed 32-bit integer in canonical decimal form, as
/// `i32::to_string` does.
pub fn i32_to_string(v: i32) -> (r: String)
    ensures
        r@ == int_text(v as int),
{
    let neg = v < 0;
    let m: u64 = if neg {
        (-(v as i64)) as u64
    } else {
        v as u64
    };
    let digits = u64_digits(m);
    let mut chars: Vec<char> = Vec::new();
    if neg {
        chars.push('-');
    }
    let mut i: usize = 0;
    let k = digits.len();
    while i < k
        invariant
            k == digits@.len(),
            i <= k,
            chars@ =~= (if neg { seq!['-'] } else { Seq::<char>::empty() }) + digits@.take(i as int),
        decreases k - i,
    {
        chars.push(digits[i]);
        proof {
            assert(digits@.take(i + 1) =~= digits@.take(i as int).push(digits@[i as int]));
        }
        i += 1;
    }
    proof {
        assert(digits@.take(k as int) =~= digits@);
        lemma_nat_digits_text_ascii(m as int);
        if neg {
            assert(chars@ =~= seq!['-'] + nat_digits_text(m as int));
            assert(vstd::utf8::is_ascii_chars(chars@));
        }
    }
    ascii_chars_to_string(&chars)
}

/// Rendering then parsing gives the integer back.
pub proof fn lemma_int_text_round_trip(v: i32)
    ensures
        spec_parse_i32(int_text(v as int)) == Some(v),
{
    let s = int_text(v as int);
    if v < 0 {
        lemma_nat_digits_text_digits(-(v as int));
        assert(s.skip(1) =~= nat_digits_text(-(v as int)));
        assert(s[0] == '-');
        assert(int_text_val(s) == v as int);
    } else {
        lemma_nat_digits_text_digits(v as int);
        assert(s =~= nat_digits_text(v as int));
        assert(is_digit(s[0]));
        assert(int_text_val(s) == v as int);
    }
}

} // verus!
