//! Exact comparison of decimal literals carried as text. A literal
//! `[-+]? digits [. digits]` denotes the rational `num / 10^frac_len`;
//! two literals are compared by cross-multiplying those rationals.

use vstd::prelude::*;
use vstd::arithmetic::power::{pow, lemma_pow_positive, lemma_pow_adds};
use crate::numtext::{
    pow10, is_digit, all_digits, digits_val, digit_of,
    lemma_digits_val_nonneg, lemma_digits_val_concat, lemma_digits_val_bound,
};
use crate::strutil::str_chars;

verus! {

/// Three-way comparison outcome.
#[derive(Debug, Clone, Copy, PartialEq, Eq, Structural)]
pub enum CmpResult {
    Less,
    Equal,
    Greater,
}

/// Index of the first `.`, or the length when there is none.
pub open spec fn dot_pos(s: Seq<char>) -> int
    decreases s.len(),
{
    if s.len() == 0 {
        0
    } else if s[0] == '.' {
        0
    } else {
        1 + dot_pos(s.skip(1))
    }
}

pub proof fn lemma_dot_pos_range(s: Seq<char>)
    ensures
        0 <= dot_pos(s) <= s.len(),
        forall|i: int| 0 <= i < dot_pos(s) ==> s[i] != '.',
        dot_pos(s) < s.len() ==> s[dot_pos(s)] == '.',
    decreases s.len(),
{
    if s.len() > 0 && s[0] != '.' {
        lemma_dot_pos_range(s.skip(1));
        assert forall|i: int| 0 <= i < dot_pos(s) implies s[i] != '.' by {
            if i > 0 {
                assert(s.skip(1)[i - 1] != '.');
            }
        }
    }
}

/// The text with any sign removed.
pub open spec fn dec_body(s: Seq<char>) -> Seq<char> {
    if s.len() > 0 && (s[0] == '-' || s[0] == '+') {
        s.skip(1)
    } else {
        s
    }
}

pub open spec fn dec_neg(s: Seq<char>) -> bool {
    s.len() > 0 && s[0] == '-'
}

pub open spec fn dec_int_part(s: Seq<char>) -> Seq<char> {
    dec_body(s).take(dot_pos(dec_body(s)))
}

pub open spec fn dec_frac_part(s: Seq<char>) -> Seq<char> {
    if dot_pos(dec_body(s)) < dec_body(s).len() {
        dec_body(s).skip(dot_pos(dec_body(s)) + 1)
    } else {
        Seq::empty()
    }
}

/// A plain decimal literal: an optional sign, digits, and at most one dot,
/// with at least one digit overall.
pub open spec fn is_dec_text(s: Seq<char>) -> bool {
    &&& dec_body(s).len() > 0
    &&& all_digits(dec_int_part(s))
    &&& all_digits(dec_frac_part(s))
    &&& dec_int_part(s).len() + dec_frac_part(s).len() >= 1
}

/// The magnitude scaled by `10^frac_len`.
pub open spec fn dec_mag(s: Seq<char>) -> int {
    digits_val(dec_int_part(s) + dec_frac_part(s))
}

/// The signed numerator of the denoted rational `dec_num(s) / 10^dec_frac_len(s)`.
pub open spec fn dec_num(s: Seq<char>) -> int {
    if dec_neg(s) {
        -dec_mag(s)
    } else {
        dec_mag(s)
    }
}

pub open spec fn dec_frac_len(s: Seq<char>) -> nat {
    dec_frac_part(s).len()
}

/// `a` denotes a smaller rational than `b`.
pub open spec fn dec_lt(a: Seq<char>, b: Seq<char>) -> bool {
    dec_num(a) * pow10(dec_frac_len(b)) < dec_num(b) * pow10(dec_frac_len(a))
}

/// `a` and `b` denote the same rational.
pub open spec fn dec_eq(a: Seq<char>, b: Seq<char>) -> bool {
    dec_num(a) * pow10(dec_frac_len(b)) == dec_num(b) * pow10(dec_frac_len(a))
}

proof fn lemma_digits_val_singleton(c: char)
    ensures
        digits_val(seq![c]) == digit_of(c),
{
    assert(seq![c].drop_last() =~= Seq::<char>::empty());
    assert(digits_val(Seq::<char>::empty()) == 0);
    assert(seq![c].last() == c);
}

/// Distinct characters have distinct scalar values.
proof fn lemma_char_neq_val(c1: char, c2: char)
    requires
        c1 != c2,
    ensures
        c1 as u32 != c2 as u32,
{
    if c1 as u32 == c2 as u32 {
        vstd::utf8::char_u32_cast(c1, c1 as u32);
        vstd::utf8::char_u32_cast(c2, c2 as u32);
    }
}

spec fn all_zero_digits(s: Seq<char>) -> bool {
    forall|i: int| 0 <= i < s.len() ==> #[trigger] s[i] == '0'
}

proof fn lemma_zero_digits_val(s: Seq<char>)
    requires
        all_digits(s),
    ensures
        (digits_val(s) == 0) <==> all_zero_digits(s),
    decreases s.len(),
{
    if s.len() > 0 {
        assert(all_digits(s.drop_last()));
        lemma_zero_digits_val(s.drop_last());
        lemma_digits_val_nonneg(s.drop_last());
        if digits_val(s) == 0 {
            assert(digits_val(s.drop_last()) * 10 + digit_of(s.last()) == 0);
            assert(digit_of(s.last()) >= 0);
            assert(digits_val(s.drop_last()) * 10 >= 0) by (nonlinear_arith)
                requires digits_val(s.drop_last()) >= 0,
            ;
            assert(digits_val(s.drop_last()) == 0) by (nonlinear_arith)
                requires
                    digits_val(s.drop_last()) >= 0,
                    digits_val(s.drop_last()) * 10 <= 0,
            ;
            assert(s.last() == '0');
            assert forall|i: int| 0 <= i < s.len() implies #[trigger] s[i] == '0' by {
                if i < s.len() - 1 {
                    assert(s.drop_last()[i] == '0');
                }
            }
        } else {
            if all_zero_digits(s) {
                assert(all_zero_digits(s.drop_last()));
                assert(s.last() == '0');
            }
        }
    }
}

/// Equal-length digit strings compare by their first differing digit.
proof fn lemma_digits_lex(x: Seq<char>, y: Seq<char>, i: int)
    requires
        all_digits(x),
        all_digits(y),
        x.len() == y.len(),
        0 <= i < x.len(),
        forall|j: int| 0 <= j < i ==> x[j] == y[j],
        digit_of(x[i]) < digit_of(y[i]),
    ensures
        digits_val(x) < digits_val(y),
{
    let p = x.take(i);
    let xr = x.skip(i + 1);
    let yr = y.skip(i + 1);
    let r = xr.len();
    assert(x =~= (p + seq![x[i]]) + xr);
    assert(y =~= (y.take(i) + seq![y[i]]) + yr);
    assert(y.take(i) =~= p);
    lemma_digits_val_concat(p + seq![x[i]], xr);
    lemma_digits_val_concat(p + seq![y[i]], yr);
    lemma_digits_val_concat(p, seq![x[i]]);
    lemma_digits_val_concat(p, seq![y[i]]);
    lemma_digits_val_singleton(x[i]);
    lemma_digits_val_singleton(y[i]);
    vstd::arithmetic::power::lemma_pow1(10);
    assert(pow10(1) == 10);
    assert(all_digits(xr)) by {
        assert(forall|j: int| 0 <= j < xr.len() ==> xr[j] == x[i + 1 + j]);
    }
    assert(all_digits(yr)) by {
        assert(forall|j: int| 0 <= j < yr.len() ==> yr[j] == y[i + 1 + j]);
    }
    lemma_digits_val_bound(xr);
    lemma_digits_val_nonneg(yr);
    let a1 = digits_val(p) * 10 + digit_of(x[i]);
    let b1 = digits_val(p) * 10 + digit_of(y[i]);
    assert(a1 + 1 <= b1);
    lemma_pow_positive(10, r);
    assert(digits_val(x) == a1 * pow10(r) + digits_val(xr));
    assert(digits_val(y) == b1 * pow10(r) + digits_val(yr));
    assert(a1 * pow10(r) + digits_val(xr) < b1 * pow10(r) + digits_val(yr)) by (nonlinear_arith)
        requires
            a1 + 1 <= b1,
            digits_val(xr) < pow10(r),
            digits_val(yr) >= 0,
            pow10(r) >= 1,
    ;
}

/// A longer digit string with a non-zero leading digit has a larger value.
proof fn lemma_digits_len(x: Seq<char>, y: Seq<char>)
    requires
        all_digits(x),
        all_digits(y),
        x.len() < y.len(),
        y.len() > 0,
        digit_of(y[0]) >= 1,
    ensures
        digits_val(x) < digits_val(y),
{
    lemma_digits_val_bound(x);
    let yr = y.skip(1);
    assert(y =~= seq![y[0]] + yr);
    lemma_digits_val_concat(seq![y[0]], yr);
    lemma_digits_val_singleton(y[0]);
    assert(all_digits(yr)) by {
        assert(forall|j: int| 0 <= j < yr.len() ==> yr[j] == y[1 + j]);
    }
    lemma_digits_val_nonneg(yr);
    vstd::arithmetic::power::lemma_pow_increases(10, x.len(), yr.len());
    lemma_pow_positive(10, x.len());
    assert(digit_of(y[0]) * pow10(yr.len()) >= pow10(yr.len())) by (nonlinear_arith)
        requires
            digit_of(y[0]) >= 1,
            pow10(yr.len()) >= 1,
    ;
    assert(digits_val(x) < pow10(x.len()));
    assert(pow10(x.len()) <= pow10(yr.len()));
}

/// Appending zeros scales a digit string's value by a power of ten.
proof fn lemma_append_zeros(s: Seq<char>, k: nat)
    ensures
        digits_val(s + Seq::new(k, |i: int| '0')) == digits_val(s) * pow10(k),
{
    let z = Seq::new(k, |i: int| '0');
    lemma_digits_val_concat(s, z);
    assert(all_digits(z));
    lemma_zero_digits_val(z);
    assert(all_zero_digits(z));
    assert(digits_val(z) == 0);
}

/// Stripping leading zeros keeps the value.
proof fn lemma_strip_zeros(s: Seq<char>, k: int)
    requires
        0 <= k <= s.len(),
        forall|i: int| 0 <= i < k ==> s[i] == '0',
    ensures
        digits_val(s.skip(k)) == digits_val(s),
{
    let p = s.take(k);
    assert(s =~= p + s.skip(k));
    lemma_digits_val_concat(p, s.skip(k));
    assert(all_digits(p)) by {
        assert(forall|i: int| 0 <= i < p.len() ==> p[i] == '0');
    }
    lemma_zero_digits_val(p);
    assert(all_zero_digits(p));
    assert(digits_val(p) == 0);
}

/// Compares two digit strings by value.
fn cmp_digits(x: &Vec<char>, y: &Vec<char>) -> (r: CmpResult)
    requires
        all_digits(x@),
        all_digits(y@),
    ensures
        (r == CmpResult::Less) == (digits_val(x@) < digits_val(y@)),
        (r == CmpResult::Equal) == (digits_val(x@) == digits_val(y@)),
        (r == CmpResult::Greater) == (digits_val(x@) > digits_val(y@)),
{
    // Strip leading zeros on both sides.
    let mut sx: usize = 0;
    while sx < x.len() && x[sx] == '0'
        invariant
            sx <= x@.len(),
            forall|i: int| 0 <= i < sx ==> x@[i] == '0',
        decreases x@.len() - sx,
    {
        sx += 1;
    }
    let mut sy: usize = 0;
    while sy < y.len() && y[sy] == '0'
        invariant
            sy <= y@.len(),
            forall|i: int| 0 <= i < sy ==> y@[i] == '0',
        decreases y@.len() - sy,
    {
        sy += 1;
    }
    proof {
        lemma_strip_zeros(x@, sx as int);
        lemma_strip_zeros(y@, sy as int);
        assert(all_digits(x@.skip(sx as int))) by {
            assert(forall|j: int|
                0 <= j < x@.skip(sx as int).len() ==> x@.skip(sx as int)[j] == x@[sx + j]);
        }
        assert(all_digits(y@.skip(sy as int))) by {
            assert(forall|j: int|
                0 <= j < y@.skip(sy as int).len() ==> y@.skip(sy as int)[j] == y@[sy + j]);
        }
    }
    let ghost xs = x@.skip(sx as int);
    let ghost ys = y@.skip(sy as int);
    let lx = x.len() - sx;
    let ly = y.len() - sy;
    if lx < ly {
        proof {
            assert(sy < y@.len());
            assert(ys[0] == y@[sy as int]);
            lemma_char_neq_val(y@[sy as int], '0');
            assert(is_digit(ys[0]));
            assert(digit_of(ys[0]) >= 1);
            lemma_digits_len(xs, ys);
        }
        return CmpResult::Less;
    }
    if ly < lx {
        proof {
            assert(sx < x@.len());
            assert(xs[0] == x@[sx as int]);
            lemma_char_neq_val(x@[sx as int], '0');
            assert(is_digit(xs[0]));
            assert(digit_of(xs[0]) >= 1);
            lemma_digits_len(ys, xs);
        }
        return CmpResult::Greater;
    }
    // Same effective length: lexicographic comparison decides.
    let mut i: usize = 0;
    while i < lx
        invariant
            sx + lx <= x@.len(),
            sy + ly <= y@.len(),
            lx == x@.len() - sx,
            ly == y@.len() - sy,
            lx == ly,
            i <= lx,
            xs == x@.skip(sx as int),
            ys == y@.skip(sy as int),
            all_digits(xs),
            all_digits(ys),
            digits_val(xs) == digits_val(x@),
            digits_val(ys) == digits_val(y@),
            forall|j: int| 0 <= j < i ==> xs[j] == ys[j],
        decreases lx - i,
    {
        let xlen = x.len();
        let ylen = y.len();
        let cx = x[sx + i];
        let cy = y[sy + i];
        if cx != cy {
            proof {
                assert(xs[i as int] == cx);
                assert(ys[i as int] == cy);
                assert(is_digit(cx) && is_digit(cy));
                lemma_char_neq_val(cx, cy);
                if (cx as u32) < (cy as u32) {
                    lemma_digits_lex(xs, ys, i as int);
                } else {
                    assert(digit_of(ys[i as int]) < digit_of(xs[i as int]));
                    lemma_digits_lex(ys, xs, i as int);
                }
            }
            if (cx as u32) < (cy as u32) {
                return CmpResult::Less;
            } else {
                return CmpResult::Greater;
            }
        }
        i += 1;
    }
    proof {
        assert(xs =~= ys);
    }
    CmpResult::Equal
}

/// Splits a decimal literal into sign, integer digits, and fraction digits.
fn dec_split(s: &str) -> (r: (bool, Vec<char>, Vec<char>))
    requires
        is_dec_text(s@),
    ensures
        r.0 == dec_neg(s@),
        r.1@ == dec_int_part(s@),
        r.2@ == dec_frac_part(s@),
{
    let cs = str_chars(s);
    let n = cs.len();
    let c0 = cs[0];
    let neg = c0 == '-';
    let start: usize = if c0 == '-' || c0 == '+' { 1 } else { 0 };
    let ghost body = dec_body(s@);
    proof {
        assert(body == s@.skip(start as int));
        lemma_dot_pos_range(body);
    }
    let mut ints: Vec<char> = Vec::new();
    let mut i: usize = start;
    while i < n && cs[i] != '.'
        invariant
            cs@ == s@,
            n == cs@.len(),
            body == s@.skip(start as int),
            start <= i <= n,
            forall|j: int| 0 <= j < body.len() ==> body[j] == s@[start + j],
            ints@ =~= body.take(i - start),
            forall|j: int| 0 <= j < i - start ==> body[j] != '.',
        decreases n - i,
    {
        ints.push(cs[i]);
        proof {
            assert(ints@ =~= body.take(i + 1 - start));
        }
        i += 1;
    }
    proof {
        lemma_dot_pos_range(body);
        // `i - start` is the position of the first dot, or the body length.
        assert(dot_pos_is(body, i - start)) by {
            if i < n {
                assert(body[i - start] == '.');
            }
            lemma_dot_pos_unique(body, i - start);
        }
        assert(ints@ == dec_int_part(s@));
    }
    let mut fracs: Vec<char> = Vec::new();
    if i < n {
        // Skip the dot.
        let mut k: usize = i + 1;
        while k < n
            invariant
                cs@ == s@,
                n == cs@.len(),
                body == s@.skip(start as int),
                start < k || start == 0,
                i + 1 <= k <= n,
                start <= i,
                forall|j: int| 0 <= j < body.len() ==> body[j] == s@[start + j],
                fracs@ =~= body.skip(i + 1 - start).take(k - i - 1),
            decreases n - k,
        {
            fracs.push(cs[k]);
            proof {
                assert(fracs@ =~= body.skip(i + 1 - start).take(k + 1 - i - 1));
            }
            k += 1;
        }
        proof {
            assert(body.skip(i + 1 - start).take(n - i - 1) =~= body.skip(i + 1 - start));
            assert(fracs@ == dec_frac_part(s@));
        }
    } else {
        proof {
            assert(fracs@ =~= dec_frac_part(s@));
        }
    }
    (neg, ints, fracs)
}

pub open spec fn dot_pos_is(s: Seq<char>, p: int) -> bool {
    dot_pos(s) == p
}

pub proof fn lemma_dot_pos_unique(s: Seq<char>, p: int)
    requires
        0 <= p <= s.len(),
        forall|i: int| 0 <= i < p ==> s[i] != '.',
        p < s.len() ==> s[p] == '.',
    ensures
        dot_pos(s) == p,
    decreases s.len(),
{
    if s.len() > 0 && s[0] != '.' {
        assert(p > 0);
        lemma_dot_pos_unique(s.skip(1), p - 1);
    }
}

fn is_zero_digits(v: &Vec<char>) -> (r: bool)
    requires
        all_digits(v@),
    ensures
        r == (digits_val(v@) == 0),
{
    proof {
        lemma_zero_digits_val(v@);
    }
    let mut i: usize = 0;
    while i < v.len()
        invariant
            i <= v@.len(),
            (digits_val(v@) == 0) <==> all_zero_digits(v@),
            forall|j: int| 0 <= j < i ==> #[trigger] v@[j] == '0',
        decreases v@.len() - i,
    {
        if v[i] != '0' {
            proof {
                assert(!all_zero_digits(v@));
            }
            return false;
        }
        i += 1;
    }
    true
}

/// Scaling both magnitudes to a common power of ten preserves their order.
proof fn lemma_common_scale(ma: int, mb: int, fa: nat, fb: nat, l: nat)
    requires
        l >= fa,
        l >= fb,
    ensures
        (ma * pow10((l - fa) as nat) < mb * pow10((l - fb) as nat)) == (ma * pow10(fb) < mb
            * pow10(fa)),
        (ma * pow10((l - fa) as nat) == mb * pow10((l - fb) as nat)) == (ma * pow10(fb) == mb
            * pow10(fa)),
{
    let la = (l - fa) as nat;
    let lb = (l - fb) as nat;
    lemma_pow_adds(10, la, fa);
    lemma_pow_adds(10, lb, fb);
    lemma_pow_positive(10, fa);
    lemma_pow_positive(10, fb);
    lemma_pow_positive(10, l);
    let u = ma * pow10(la);
    let v = mb * pow10(lb);
    let x = ma * pow10(fb);
    let y = mb * pow10(fa);
    let w = pow10(fa) * pow10(fb);
    assert(u * w == x * pow10(l)) by (nonlinear_arith)
        requires
            u == ma * pow10(la),
            x == ma * pow10(fb),
            w == pow10(fa) * pow10(fb),
            pow10(la) * pow10(fa) == pow10(l),
    ;
    assert(v * w == y * pow10(l)) by (nonlinear_arith)
        requires
            v == mb * pow10(lb),
            y == mb * pow10(fa),
            w == pow10(fa) * pow10(fb),
            pow10(lb) * pow10(fb) == pow10(l),
    ;
    assert(w >= 1) by (nonlinear_arith)
        requires
            w == pow10(fa) * pow10(fb),
            pow10(fa) >= 1,
            pow10(fb) >= 1,
    ;
    assert((u < v) == (u * w < v * w)) by (nonlinear_arith)
        requires w >= 1,
    ;
    assert((u == v) == (u * w == v * w)) by (nonlinear_arith)
        requires w >= 1,
    ;
    assert((x * pow10(l) < y * pow10(l)) == (x < y)) by (nonlinear_arith)
        requires pow10(l) >= 1,
    ;
    assert((x * pow10(l) == y * pow10(l)) == (x == y)) by (nonlinear_arith)
        requires pow10(l) >= 1,
    ;
}

/// Compares two decimal literals by the rationals they denote.
pub fn dec_cmp(a: &str, b: &str) -> (r: CmpResult)
    requires
        is_dec_text(a@),
        is_dec_text(b@),
    ensures
        (r == CmpResult::Less) == dec_lt(a@, b@),
        (r == CmpResult::Equal) == dec_eq(a@, b@),
        (r == CmpResult::Greater) == dec_lt(b@, a@),
{
    let (neg_a, ints_a, fracs_a) = dec_split(a);
    let (neg_b, ints_b, fracs_b) = dec_split(b);
    let fa = fracs_a.len();
    let fb = fracs_b.len();
    let l = if fa > fb { fa } else { fb };

    // Scale both magnitudes to `l` fraction digits.
    let mut key_a = ints_a;
    let mut i: usize = 0;
    while i < fa
        invariant
            fa == fracs_a@.len(),
            i <= fa,
            key_a@ =~= dec_int_part(a@) + fracs_a@.take(i as int),
            fracs_a@ == dec_frac_part(a@),
        decreases fa - i,
    {
        key_a.push(fracs_a[i]);
        proof {
            assert(key_a@ =~= dec_int_part(a@) + fracs_a@.take(i + 1));
        }
        i += 1;
    }
    let mut i: usize = fa;
    while i < l
        invariant
            fa <= i <= l,
            fa == fracs_a@.len(),
            fracs_a@ == dec_frac_part(a@),
            key_a@ =~= dec_int_part(a@) + dec_frac_part(a@) + Seq::new((i - fa) as nat, |j: int| '0'),
        decreases l - i,
    {
        key_a.push('0');
        proof {
            assert(key_a@ =~= dec_int_part(a@) + dec_frac_part(a@) + Seq::new(
                (i + 1 - fa) as nat,
                |j: int| '0',
            ));
        }
        i += 1;
    }
    let mut key_b = ints_b;
    let mut i: usize = 0;
    while i < fb
        invariant
            fb == fracs_b@.len(),
            i <= fb,
            key_b@ =~= dec_int_part(b@) + fracs_b@.take(i as int),
            fracs_b@ == dec_frac_part(b@),
        decreases fb - i,
    {
        key_b.push(fracs_b[i]);
        proof {
            assert(key_b@ =~= dec_int_part(b@) + fracs_b@.take(i + 1));
        }
        i += 1;
    }
    let mut i: usize = fb;
    while i < l
        invariant
            fb <= i <= l,
            fb == fracs_b@.len(),
            fracs_b@ == dec_frac_part(b@),
            key_b@ =~= dec_int_part(b@) + dec_frac_part(b@) + Seq::new((i - fb) as nat, |j: int| '0'),
        decreases l - i,
    {
        key_b.push('0');
        proof {
            assert(key_b@ =~= dec_int_part(b@) + dec_frac_part(b@) + Seq::new(
                (i + 1 - fb) as nat,
                |j: int| '0',
            ));
        }
        i += 1;
    }
    proof {
        assert(fracs_a@.take(fa as int) =~= dec_frac_part(a@));
        assert(fracs_b@.take(fb as int) =~= dec_frac_part(b@));
        if fa >= l {
            assert(key_a@ =~= dec_int_part(a@) + dec_frac_part(a@) + Seq::new(0, |j: int| '0'));
        }
        if fb >= l {
            assert(key_b@ =~= dec_int_part(b@) + dec_frac_part(b@) + Seq::new(0, |j: int| '0'));
        }
        lemma_append_zeros(dec_int_part(a@) + dec_frac_part(a@), (l - fa) as nat);
        lemma_append_zeros(dec_int_part(b@) + dec_frac_part(b@), (l - fb) as nat);
        assert((dec_int_part(a@) + dec_frac_part(a@)) + Seq::new((l - fa) as nat, |j: int| '0')
            =~= dec_int_part(a@) + dec_frac_part(a@) + Seq::new((l - fa) as nat, |j: int| '0'));
        assert((dec_int_part(b@) + dec_frac_part(b@)) + Seq::new((l - fb) as nat, |j: int| '0')
            =~= dec_int_part(b@) + dec_frac_part(b@) + Seq::new((l - fb) as nat, |j: int| '0'));
        assert(digits_val(key_a@) == dec_mag(a@) * pow10((l - fa) as nat));
        assert(digits_val(key_b@) == dec_mag(b@) * pow10((l - fb) as nat));
        assert(all_digits(key_a@)) by {
            assert(forall|j: int|
                0 <= j < dec_int_part(a@).len() ==> key_a@[j] == dec_int_part(a@)[j]);
            assert(forall|j: int|
                dec_int_part(a@).len() <= j < dec_int_part(a@).len() + fa ==> key_a@[j]
                    == dec_frac_part(a@)[j - dec_int_part(a@).len()]);
            assert(forall|j: int|
                dec_int_part(a@).len() + fa <= j < key_a@.len() ==> key_a@[j] == '0');
        }
        assert(all_digits(key_b@)) by {
            assert(forall|j: int|
                0 <= j < dec_int_part(b@).len() ==> key_b@[j] == dec_int_part(b@)[j]);
            assert(forall|j: int|
                dec_int_part(b@).len() <= j < dec_int_part(b@).len() + fb ==> key_b@[j]
                    == dec_frac_part(b@)[j - dec_int_part(b@).len()]);
            assert(forall|j: int|
                dec_int_part(b@).len() + fb <= j < key_b@.len() ==> key_b@[j] == '0');
        }
        lemma_common_scale(dec_mag(a@), dec_mag(b@), fa as nat, fb as nat, l as nat);
        lemma_digits_val_nonneg(key_a@);
        lemma_digits_val_nonneg(key_b@);
        lemma_pow_positive(10, (l - fa) as nat);
        lemma_pow_positive(10, (l - fb) as nat);
        lemma_digits_val_nonneg(dec_int_part(a@) + dec_frac_part(a@));
        lemma_digits_val_nonneg(dec_int_part(b@) + dec_frac_part(b@));
        assert((digits_val(key_a@) == 0) <==> (dec_mag(a@) == 0)) by (nonlinear_arith)
            requires
                digits_val(key_a@) == dec_mag(a@) * pow10((l - fa) as nat),
                pow10((l - fa) as nat) >= 1,
                dec_mag(a@) >= 0,
        ;
        assert((digits_val(key_b@) == 0) <==> (dec_mag(b@) == 0)) by (nonlinear_arith)
            requires
                digits_val(key_b@) == dec_mag(b@) * pow10((l - fb) as nat),
                pow10((l - fb) as nat) >= 1,
                dec_mag(b@) >= 0,
        ;
    }
    let mag_cmp = cmp_digits(&key_a, &key_b);
    let zero_a = is_zero_digits(&key_a);
    let zero_b = is_zero_digits(&key_b);
    proof {
        // Relate the scaled comparison back to the cross-multiplied spec.
        lemma_common_scale(dec_mag(a@), dec_mag(b@), fa as nat, fb as nat, l as nat);
        assert(dec_frac_len(a@) == fa as nat);
        assert(dec_frac_len(b@) == fb as nat);
        lemma_pow_positive(10, dec_frac_len(a@));
        lemma_pow_positive(10, dec_frac_len(b@));
        assert((-dec_mag(a@)) * pow10(dec_frac_len(b@)) == -(dec_mag(a@) * pow10(dec_frac_len(
            b@,
        )))) by (nonlinear_arith);
        assert((-dec_mag(b@)) * pow10(dec_frac_len(a@)) == -(dec_mag(b@) * pow10(dec_frac_len(
            a@,
        )))) by (nonlinear_arith);
        assert(dec_mag(a@) * pow10(dec_frac_len(b@)) >= 0) by (nonlinear_arith)
            requires
                dec_mag(a@) >= 0,
                pow10(dec_frac_len(b@)) >= 1,
        ;
        assert(dec_mag(b@) * pow10(dec_frac_len(a@)) >= 0) by (nonlinear_arith)
            requires
                dec_mag(b@) >= 0,
                pow10(dec_frac_len(a@)) >= 1,
        ;
        assert((dec_mag(a@) * pow10(dec_frac_len(b@)) == 0) == (dec_mag(a@) == 0))
            by (nonlinear_arith)
            requires pow10(dec_frac_len(b@)) >= 1, dec_mag(a@) >= 0,
        ;
        assert((dec_mag(b@) * pow10(dec_frac_len(a@)) == 0) == (dec_mag(b@) == 0))
            by (nonlinear_arith)
            requires pow10(dec_frac_len(a@)) >= 1, dec_mag(b@) >= 0,
        ;
    }
    match (neg_a, neg_b) {
        (false, false) => mag_cmp,
        (true, true) => match mag_cmp {
            CmpResult::Less => CmpResult::Greater,
            CmpResult::Equal => CmpResult::Equal,
            CmpResult::Greater => CmpResult::Less,
        },
        (true, false) => {
            if zero_a && zero_b {
                CmpResult::Equal
            } else {
                CmpResult::Less
            }
        },
        (false, true) => {
            if zero_a && zero_b {
                CmpResult::Equal
            } else {
                CmpResult::Greater
            }
        },
    }
}

/// Decides whether a string is a plain decimal literal.
#[verifier::loop_isolation(false)]
pub fn check_dec_text(s: &str) -> (r: bool)
    ensures
        r == is_dec_text(s@),
{
    let cs = str_chars(s);
    let n = cs.len();
    if n == 0 {
        return false;
    }
    let c0 = cs[0];
    let start: usize = if c0 == '-' || c0 == '+' { 1 } else { 0 };
    if start == n {
        proof {
            assert(dec_body(s@).len() == 0);
        }
        return false;
    }
    let ghost body = dec_body(s@);
    proof {
        assert(body == s@.skip(start as int));
        assert(body.len() > 0);
    }
    // find the first dot
    let mut d: usize = start;
    while d < n && cs[d] != '.'
        invariant
            start <= d <= n,
            n == s@.len(),
            cs@ == s@,
            forall|j: int| start <= j < d ==> s@[j] != '.',
        decreases n - d,
    {
        d += 1;
    }
    proof {
        crate::decimal::lemma_dot_pos_unique(body, d - start);
        assert(dec_int_part(s@) =~= s@.subrange(start as int, d as int));
        if d < n {
            assert(dec_frac_part(s@) =~= s@.subrange(d + 1, n as int));
        } else {
            assert(dec_frac_part(s@) =~= Seq::<char>::empty());
        }
    }
    // all other characters must be digits, and at least one digit
    let mut ok = true;
    let mut digits: usize = 0;
    let mut i: usize = start;
    while i < d
        invariant
            start <= i <= d <= n,
            n == s@.len(),
            cs@ == s@,
            digits <= i,
            ok == (forall|j: int| start <= j < i ==> crate::numtext::is_digit(#[trigger] s@[j])),
            ok ==> digits == i - start,
        decreases d - i,
    {
        if !(cs[i] >= '0' && cs[i] <= '9') {
            ok = false;
        } else if ok {
            digits += 1;
        }
        i += 1;
    }
    let mut i: usize = if d < n { d + 1 } else { n };
    let frac_start = i;
    while i < n
        invariant
            frac_start <= i <= n,
            n == s@.len(),
            cs@ == s@,
            digits <= i,
            ok ==> (forall|j: int|
                start <= j < d ==> crate::numtext::is_digit(#[trigger] s@[j])),
            ok ==> (forall|j: int|
                frac_start <= j < i ==> crate::numtext::is_digit(#[trigger] s@[j])),
            !ok ==> !(forall|j: int|
                start <= j < d ==> crate::numtext::is_digit(#[trigger] s@[j])) || !(forall|j: int|
                frac_start <= j < i ==> crate::numtext::is_digit(#[trigger] s@[j])),
            ok ==> digits == i - frac_start + (d - start),
        decreases n - i,
    {
        if !(cs[i] >= '0' && cs[i] <= '9') {
            ok = false;
        } else if ok {
            digits += 1;
        }
        i += 1;
    }
    proof {
        let ip = dec_int_part(s@);
        let fp = dec_frac_part(s@);
        assert(ip.len() == d - start);
        if ok {
            assert(all_digits(ip)) by {
                assert(forall|j: int| 0 <= j < ip.len() ==> ip[j] == s@[start + j]);
            }
            assert(all_digits(fp)) by {
                assert(forall|j: int| 0 <= j < fp.len() ==> fp[j] == s@[frac_start + j]);
            }
        } else {
            if all_digits(ip) && all_digits(fp) {
                assert(forall|j: int| start <= j < d ==> crate::numtext::is_digit(
                    #[trigger] s@[j])) by {
                    assert(forall|j: int| start <= j < d ==> s@[j] == ip[j - start]);
                }
                assert(forall|j: int| frac_start <= j < n ==> crate::numtext::is_digit(
                    #[trigger] s@[j])) by {
                    assert(forall|j: int|
                        frac_start <= j < n ==> s@[j] == fp[j - frac_start]);
                }
                assert(false);
            }
        }
    }
    ok && digits > 0
}

} // verus!
