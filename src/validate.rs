//! The request policy: method `GET`, a rooted path, and protocol `HTTP` or
//! `HTTP/<version>` with a version of at least 0.9.
use vstd::prelude::*;
use crate::request::Request;
use crate::text::{find_last, last_index_of, lemma_last_index_append, str_equal};

verus! {

pub open spec fn is_digit(c: char) -> bool {
    '0' <= c && c <= '9'
}

pub open spec fn all_digits(s: Seq<char>) -> bool {
    forall|i: int| 0 <= i < s.len() ==> is_digit(#[trigger] s[i])
}

pub open spec fn digit_of(c: char) -> int {
    (c as u32) as int - 48
}

pub open spec fn pow10(n: nat) -> nat
    decreases n,
{
    if n == 0 {
        1
    } else {
        10 * pow10((n - 1) as nat)
    }
}

/// The number that a string of decimal digits denotes.
pub open spec fn digits_value(s: Seq<char>) -> int
    decreases s.len(),
{
    if s.len() == 0 {
        0
    } else {
        digit_of(s[0]) * pow10((s.len() - 1) as nat) + digits_value(s.drop_first())
    }
}

/// `v` without one leading `+`.
pub open spec fn unsigned_part(v: Seq<char>) -> Seq<char> {
    if v.len() > 0 && v[0] == '+' {
        v.drop_first()
    } else {
        v
    }
}

/// The digits of `u` before its last `.`, or all of `u` when it has none.
pub open spec fn int_part(u: Seq<char>) -> Seq<char> {
    let k = last_index_of(u, '.');
    if k < 0 {
        u
    } else {
        u.subrange(0, k)
    }
}

/// The digits of `u` after its last `.`, or none when it has none.
pub open spec fn frac_part(u: Seq<char>) -> Seq<char> {
    let k = last_index_of(u, '.');
    if k < 0 {
        Seq::empty()
    } else {
        u.subrange(k + 1, u.len() as int)
    }
}

/// Index of the exponent marker of `u` (its last `e` or `E`), or -1.
pub open spec fn exp_index(u: Seq<char>) -> int {
    let a = last_index_of(u, 'e');
    let b = last_index_of(u, 'E');
    if a >= b {
        a
    } else {
        b
    }
}

/// `u` before its exponent marker, or all of `u` when it has none.
pub open spec fn mantissa(u: Seq<char>) -> Seq<char> {
    let k = exp_index(u);
    if k < 0 {
        u
    } else {
        u.subrange(0, k)
    }
}

/// `u` after its exponent marker, or nothing when it has none.
pub open spec fn exponent_text(u: Seq<char>) -> Seq<char> {
    let k = exp_index(u);
    if k < 0 {
        Seq::empty()
    } else {
        u.subrange(k + 1, u.len() as int)
    }
}

pub open spec fn has_sign(t: Seq<char>) -> bool {
    t.len() > 0 && (t[0] == '+' || t[0] == '-')
}

/// The digits of an exponent, after its optional sign.
pub open spec fn exponent_digits(t: Seq<char>) -> Seq<char> {
    if has_sign(t) {
        t.drop_first()
    } else {
        t
    }
}

/// The power of ten that an exponent denotes (0 when there is none).
pub open spec fn exponent_value(t: Seq<char>) -> int {
    if t.len() > 0 && t[0] == '-' {
        -digits_value(exponent_digits(t))
    } else {
        digits_value(exponent_digits(t))
    }
}

/// `(n / 10^f_len) * 10^x >= 9/10`, with both sides scaled to integers.
pub open spec fn scaled_at_least_nine_tenths(n: int, f_len: nat, x: int) -> bool {
    let a: nat = if x >= 0 {
        x as nat
    } else {
        0
    };
    let b: nat = if x < 0 {
        (-x) as nat
    } else {
        0
    };
    10 * n * pow10(a) >= 9 * pow10(f_len + b)
}

/// `v` is a decimal numeral `[+]digits[.digits][(e|E)[+|-]digits]` with at
/// least one mantissa digit, and the real number `i.f * 10^x` that it
/// denotes is at least 9/10.
pub open spec fn is_valid_version(v: Seq<char>) -> bool {
    let u = unsigned_part(v);
    let m = mantissa(u);
    let i = int_part(m);
    let f = frac_part(m);
    let t = exponent_text(u);
    &&& all_digits(i)
    &&& all_digits(f)
    &&& i.len() + f.len() > 0
    &&& exp_index(u) >= 0 ==> exponent_digits(t).len() > 0 && all_digits(exponent_digits(t))
    &&& scaled_at_least_nine_tenths(
        digits_value(i) * pow10(f.len()) + digits_value(f),
        f.len(),
        exponent_value(t),
    )
}

/// `HTTP`, or `HTTP/<version>` with a valid version.
pub open spec fn protocol_ok(p: Seq<char>) -> bool {
    ||| p == "HTTP"@
    ||| {
        let k = last_index_of(p, '/');
        &&& k >= 0
        &&& p.subrange(0, k) == "HTTP"@
        &&& is_valid_version(p.subrange(k + 1, p.len() as int))
    }
}

pub open spec fn method_ok(m: Seq<char>) -> bool {
    m == "GET"@
}

pub open spec fn path_rooted(p: Seq<char>) -> bool {
    p.len() > 0 && p[0] == '/'
}

/// The request passes every check of the policy.
pub open spec fn request_ok(req: Request) -> bool {
    method_ok(req.method@) && protocol_ok(req.protocol@) && path_rooted(req.path@)
}

proof fn lemma_pow10_pos(n: nat)
    ensures
        pow10(n) >= 1,
    decreases n,
{
    if n > 0 {
        lemma_pow10_pos((n - 1) as nat);
    }
}

/// A digit string is below the next power of ten, and is positive exactly
/// when one of its digits is not `0`.
proof fn lemma_digits_value(s: Seq<char>)
    requires
        all_digits(s),
    ensures
        0 <= digits_value(s) < pow10(s.len()),
        digits_value(s) > 0 <==> exists|j: int| 0 <= j < s.len() && s[j] != '0',
    decreases s.len(),
{
    if s.len() > 0 {
        let r = s.drop_first();
        let p = pow10((s.len() - 1) as nat);
        assert(all_digits(r)) by {
            assert forall|i: int| 0 <= i < r.len() implies is_digit(#[trigger] r[i]) by {
                assert(r[i] == s[i + 1]);
            }
        }
        lemma_digits_value(r);
        lemma_pow10_pos((s.len() - 1) as nat);
        assert(is_digit(s[0]));
        let d = digit_of(s[0]);
        assert(0 <= d <= 9);
        assert(0 <= d * p <= 9 * p) by (nonlinear_arith)
            requires
                0 <= d <= 9,
                p >= 1,
        ;
        assert(pow10(s.len()) == 10 * p);
        assert(digits_value(s) == d * p + digits_value(r));
        if s[0] != '0' {
            assert(d >= 1);
            assert(d * p >= p) by (nonlinear_arith)
                requires
                    d >= 1,
                    p >= 1,
            ;
            assert(exists|j: int| 0 <= j < s.len() && s[j] != '0') by {
                assert(s[0] != '0');
            }
        } else {
            assert(d == 0);
            assert(d * p == 0) by (nonlinear_arith)
                requires
                    d == 0,
            ;
            if exists|j: int| 0 <= j < s.len() && s[j] != '0' {
                let j = choose|j: int| 0 <= j < s.len() && s[j] != '0';
                assert(j >= 1);
                assert(r[j - 1] == s[j]);
            }
            if exists|j: int| 0 <= j < r.len() && r[j] != '0' {
                let j = choose|j: int| 0 <= j < r.len() && r[j] != '0';
                assert(s[j + 1] == r[j]);
            }
        }
    }
}

/// A fraction `0.f` is at least 9/10 exactly when its first digit is `9`.
proof fn lemma_fraction(f: Seq<char>)
    requires
        all_digits(f),
        f.len() > 0,
    ensures
        10 * digits_value(f) >= 9 * pow10(f.len()) <==> f[0] == '9',
{
    let r = f.drop_first();
    let p = pow10((f.len() - 1) as nat);
    assert(all_digits(r)) by {
        assert forall|i: int| 0 <= i < r.len() implies is_digit(#[trigger] r[i]) by {
            assert(r[i] == f[i + 1]);
        }
    }
    lemma_digits_value(r);
    assert(is_digit(f[0]));
    let d = digit_of(f[0]);
    let rv = digits_value(r);
    assert(pow10(f.len()) == 10 * p);
    assert(digits_value(f) == d * p + rv);
    if f[0] == '9' {
        assert(d == 9);
        assert(10 * (d * p + rv) >= 90 * p) by (nonlinear_arith)
            requires
                d == 9,
                rv >= 0,
        ;
    } else {
        assert(d <= 8);
        assert(10 * (d * p + rv) < 90 * p) by (nonlinear_arith)
            requires
                d <= 8,
                0 <= rv < p,
        ;
    }
}

/// Whether every character of `s` is a digit.
fn all_digits_str(s: &str) -> (r: bool)
    ensures
        r == all_digits(s@),
{
    let n = s.unicode_len();
    let mut i: usize = 0;
    while i < n
        invariant
            n == s@.len(),
            i <= n,
            all_digits(s@.subrange(0, i as int)),
        decreases n - i,
    {
        let c = s.get_char(i);
        if !('0' <= c && c <= '9') {
            assert(!is_digit(s@[i as int]));
            return false;
        }
        let ghost pre = s@.subrange(0, i as int);
        let ghost post = s@.subrange(0, i + 1);
        assert forall|k: int| 0 <= k < post.len() implies is_digit(#[trigger] post[k]) by {
            if k < i {
                assert(post[k] == pre[k]);
            }
        }
        i = i + 1;
    }
    assert(s@.subrange(0, n as int) == s@);
    true
}

proof fn lemma_pow10_add(m: nat, n: nat)
    ensures
        pow10(m + n) == pow10(m) * pow10(n),
    decreases m,
{
    if m > 0 {
        let m1 = (m - 1) as nat;
        lemma_pow10_add(m1, n);
        assert(pow10(m + n) == 10 * pow10(m1 + n));
        assert(pow10(m) == 10 * pow10(m1));
        let a = pow10(m1);
        let b = pow10(n);
        assert(10 * (a * b) == (10 * a) * b) by (nonlinear_arith);
    } else {
        assert(pow10(0) == 1);
        assert(m + n == n);
        assert(1 * pow10(n) == pow10(n));
    }
}

proof fn lemma_pow10_mono(m: nat, n: nat)
    requires
        m <= n,
    ensures
        pow10(m) <= pow10(n),
    decreases n,
{
    if m < n {
        lemma_pow10_mono(m, (n - 1) as nat);
    }
}

proof fn lemma_all_digits_tail(s: Seq<char>)
    requires
        all_digits(s),
        s.len() > 0,
    ensures
        all_digits(s.drop_first()),
{
    let r = s.drop_first();
    assert forall|i: int| 0 <= i < r.len() implies is_digit(#[trigger] r[i]) by {
        assert(r[i] == s[i + 1]);
    }
}

/// The value of digits written one after the other.
proof fn lemma_digits_concat(a: Seq<char>, b: Seq<char>)
    ensures
        digits_value(a + b) == digits_value(a) * pow10(b.len()) + digits_value(b),
    decreases a.len(),
{
    if a.len() == 0 {
        assert(a + b == b);
    } else {
        let a1 = a.drop_first();
        assert((a + b).drop_first() == a1 + b);
        assert((a + b)[0] == a[0]);
        lemma_digits_concat(a1, b);
        let k = (a.len() - 1) as nat;
        lemma_pow10_add(k, b.len());
        assert(((a + b).len() - 1) as nat == k + b.len());
        let d = digit_of(a[0]);
        let pk = pow10(k);
        let pb = pow10(b.len());
        let v1 = digits_value(a1);
        assert(d * (pk * pb) + v1 * pb == (d * pk + v1) * pb) by (nonlinear_arith);
    }
}

/// Leading zeros do not change the value.
proof fn lemma_leading_zeros(s: Seq<char>, z: int)
    requires
        0 <= z <= s.len(),
        forall|j: int| 0 <= j < z ==> s[j] == '0',
    ensures
        digits_value(s) == digits_value(s.subrange(z, s.len() as int)),
    decreases z,
{
    if z == 0 {
        assert(s.subrange(0, s.len() as int) == s);
    } else {
        let r = s.drop_first();
        let p = pow10((s.len() - 1) as nat);
        assert(digit_of(s[0]) == 0);
        assert(digit_of(s[0]) * p == 0);
        assert forall|j: int| 0 <= j < z - 1 implies r[j] == '0' by {
            assert(r[j] == s[j + 1]);
        }
        lemma_leading_zeros(r, z - 1);
        assert(r.subrange(z - 1, r.len() as int) == s.subrange(z, s.len() as int));
    }
}

/// A digit string without a leading zero is at least the power of ten
/// below its length.
proof fn lemma_leading_digit(s: Seq<char>)
    requires
        all_digits(s),
        s.len() > 0,
        s[0] != '0',
    ensures
        digits_value(s) >= pow10((s.len() - 1) as nat),
{
    let r = s.drop_first();
    lemma_all_digits_tail(s);
    lemma_digits_value(r);
    assert(is_digit(s[0]));
    let d = digit_of(s[0]);
    let p = pow10((s.len() - 1) as nat);
    lemma_pow10_pos((s.len() - 1) as nat);
    assert(d >= 1);
    assert(d * p >= p) by (nonlinear_arith)
        requires
            d >= 1,
            p >= 1,
    ;
}

/// For digits `dp` without a leading zero, `0.dp * 10^e` with
/// `e = x - f_len + dp.len()` is at least 9/10 exactly when `e` is positive,
/// or `e` is zero and the first digit is `9`.
proof fn lemma_scaled(dp: Seq<char>, f_len: nat, x: int)
    requires
        all_digits(dp),
        dp.len() > 0,
        dp[0] != '0',
    ensures
        scaled_at_least_nine_tenths(digits_value(dp), f_len, x) <==> (x - f_len + dp.len() >= 1 || (
        x - f_len + dp.len() == 0 && dp[0] == '9')),
{
    let n = digits_value(dp);
    let l = dp.len();
    let l1 = (l - 1) as nat;
    lemma_digits_value(dp);
    lemma_leading_digit(dp);
    let a: nat = if x >= 0 {
        x as nat
    } else {
        0
    };
    let b: nat = if x < 0 {
        (-x) as nat
    } else {
        0
    };
    let fb: nat = f_len + b;
    let pa = pow10(a);
    let q = pow10(fb);
    lemma_pow10_pos(a);
    lemma_pow10_pos(fb);
    let e = x - f_len + l;
    if e >= 1 {
        lemma_pow10_add(l1, a);
        lemma_pow10_mono(fb, l1 + a);
        let pl1 = pow10(l1);
        assert(n * pa >= pl1 * pa) by (nonlinear_arith)
            requires
                n >= pl1,
                pa >= 1,
        ;
        assert(10 * n * pa >= 9 * q) by (nonlinear_arith)
            requires
                n * pa >= q,
                q >= 1,
        ;
    } else if e <= -1 {
        lemma_pow10_add(l, a);
        let fb1 = (fb - 1) as nat;
        lemma_pow10_mono(l + a, fb1);
        assert(q == 10 * pow10(fb1));
        let pl = pow10(l);
        assert(n * pa < pl * pa) by (nonlinear_arith)
            requires
                n < pl,
                pa >= 1,
        ;
        assert(10 * n * pa < 9 * q) by (nonlinear_arith)
            requires
                n * pa < pow10(fb1),
                q == 10 * pow10(fb1),
                q >= 1,
        ;
    } else {
        lemma_pow10_add(l, a);
        assert(l + a == fb);
        let pl = pow10(l);
        lemma_fraction(dp);
        assert(q == pl * pa);
        assert(10 * n * pa >= 9 * (pl * pa) <==> 10 * n >= 9 * pl) by (nonlinear_arith)
            requires
                pa >= 1,
        ;
    }
}

/// The exponent cap: past it, the sign of the exponent alone decides.
pub const EXP_CAP: u128 = 18446744073709551616;

/// The value of the digit string `s`, or `EXP_CAP` when it is larger.
fn exponent_magnitude(s: &str) -> (r: u128)
    requires
        all_digits(s@),
    ensures
        digits_value(s@) < EXP_CAP ==> r as int == digits_value(s@),
        digits_value(s@) >= EXP_CAP ==> r == EXP_CAP,
{
    let n = s.unicode_len();
    let mut acc: u128 = 0;
    let mut i: usize = 0;
    while i < n
        invariant
            n == s@.len(),
            i <= n,
            all_digits(s@),
            digits_value(s@.subrange(0, i as int)) < EXP_CAP ==> acc as int == digits_value(
                s@.subrange(0, i as int),
            ),
            digits_value(s@.subrange(0, i as int)) >= EXP_CAP ==> acc == EXP_CAP,
        decreases n - i,
    {
        let c = s.get_char(i);
        let ghost pre = s@.subrange(0, i as int);
        assert(s@.subrange(0, i + 1) == pre + seq![c]);
        assert(all_digits(pre)) by {
            assert forall|k: int| 0 <= k < pre.len() implies is_digit(#[trigger] pre[k]) by {
                assert(pre[k] == s@[k]);
            }
        }
        proof {
            lemma_digits_concat(pre, seq![c]);
            lemma_digits_value(pre);
            assert(seq![c].drop_first() == Seq::<char>::empty());
            assert(pow10(0) == 1);
            assert(digits_value(seq![c]) == digit_of(c) * pow10(0) + digits_value(
                Seq::<char>::empty(),
            ));
            assert(seq![c][0] == c);
            assert(digit_of(c) * 1 == digit_of(c));
            assert(digits_value(seq![c]) == digit_of(c));
            assert(pow10(1) == 10 * pow10(0));
            assert(digits_value(s@.subrange(0, i + 1)) == digits_value(pre) * 10 + digit_of(c));
        }
        assert(is_digit(s@[i as int]));
        let d = (c as u32 - 48) as u128;
        assert(d as int == digit_of(c));
        if acc < EXP_CAP {
            acc = acc * 10 + d;
            if acc > EXP_CAP {
                acc = EXP_CAP;
            }
        }
        i = i + 1;
    }
    assert(s@.subrange(0, n as int) == s@);
    acc
}

/// Number of leading `0` characters of `s`.
fn leading_zeros(s: &str) -> (r: usize)
    ensures
        r <= s@.len(),
        forall|j: int| 0 <= j < r ==> s@[j] == '0',
        r < s@.len() ==> s@[r as int] != '0',
{
    let n = s.unicode_len();
    let mut i: usize = 0;
    while i < n && s.get_char(i) == '0'
        invariant
            n == s@.len(),
            i <= n,
            forall|j: int| 0 <= j < i ==> s@[j] == '0',
        decreases n - i,
    {
        i = i + 1;
    }
    i
}

/// Whether `v` is a decimal version numeral, with an optional exponent, of
/// at least 0.9.
pub fn is_valid_version_str(v: &str) -> (r: bool)
    ensures
        r == is_valid_version(v@),
{
    let n = v.unicode_len();
    let u = if n > 0 && v.get_char(0) == '+' {
        v.substring_char(1, n)
    } else {
        v
    };
    assert(u@ == unsigned_part(v@));
    let ul = u.unicode_len();
    let k: Option<usize> = match (find_last(u, 'e'), find_last(u, 'E')) {
        (None, None) => None,
        (Some(a), None) => Some(a),
        (None, Some(b)) => Some(b),
        (Some(a), Some(b)) => if a >= b {
            Some(a)
        } else {
            Some(b)
        },
    };
    assert(k is None ==> exp_index(u@) < 0);
    assert(k is Some ==> exp_index(u@) == k->Some_0 && k->Some_0 < ul);
    let (m, t) = match k {
        None => (u, u.substring_char(ul, ul)),
        Some(k) => (u.substring_char(0, k), u.substring_char(k + 1, ul)),
    };
    assert(m@ == mantissa(u@));
    assert(t@ == exponent_text(u@));
    let tl = t.unicode_len();
    let neg = tl > 0 && t.get_char(0) == '-';
    let signed = tl > 0 && (t.get_char(0) == '+' || neg);
    let ed = if signed {
        t.substring_char(1, tl)
    } else {
        t
    };
    assert(ed@ == exponent_digits(t@));
    let ed_digits = all_digits_str(ed);
    if k.is_some() && (ed.unicode_len() == 0 || !ed_digits) {
        return false;
    }
    let ml = m.unicode_len();
    let (int_s, frac_s) = match find_last(m, '.') {
        None => (m, m.substring_char(ml, ml)),
        Some(j) => (m.substring_char(0, j), m.substring_char(j + 1, ml)),
    };
    assert(int_s@ == int_part(m@));
    assert(frac_s@ == frac_part(m@));
    let int_digits = all_digits_str(int_s);
    let frac_digits = all_digits_str(frac_s);
    if !int_digits || !frac_digits {
        return false;
    }
    let il = int_s.unicode_len();
    let fl = frac_s.unicode_len();
    if il == 0 && fl == 0 {
        return false;
    }
    assert(t@.len() == 0 ==> ed@.len() == 0);
    assert(exponent_value(t@) == signed_value(ed@, neg));
    scaled_decision(int_s, frac_s, ed, neg)
}

/// The exponent `digits`, negated when `neg`.
pub open spec fn signed_value(digits: Seq<char>, neg: bool) -> int {
    if neg {
        -digits_value(digits)
    } else {
        digits_value(digits)
    }
}

/// Whether `int_s.frac_s * 10^x`, where `x` is `ed` negated when `neg`, is
/// at least 9/10.
fn scaled_decision(int_s: &str, frac_s: &str, ed: &str, neg: bool) -> (r: bool)
    requires
        all_digits(int_s@),
        all_digits(frac_s@),
        int_s@.len() + frac_s@.len() > 0,
        all_digits(ed@),
    ensures
        r == scaled_at_least_nine_tenths(
            digits_value(int_s@) * pow10(frac_s@.len()) + digits_value(frac_s@),
            frac_s@.len(),
            signed_value(ed@, neg),
        ),
{
    let il = int_s.unicode_len();
    let fl = frac_s.unicode_len();
    let mut d = String::from_str(int_s);
    d.append(frac_s);
    let dl = d.unicode_len();
    let z = leading_zeros(d.as_str());
    let ghost nv = digits_value(int_s@) * pow10(frac_s@.len()) + digits_value(frac_s@);
    let ghost dp = d@.subrange(z as int, dl as int);
    proof {
        lemma_digits_concat(int_s@, frac_s@);
        lemma_leading_zeros(d@, z as int);
        assert(nv == digits_value(dp));
        lemma_pow10_pos(frac_s@.len());
    }
    if z == dl {
        proof {
            assert(dp == Seq::<char>::empty());
            let xv = signed_value(ed@, neg);
            let a: nat = if xv >= 0 {
                xv as nat
            } else {
                0
            };
            let b: nat = if xv < 0 {
                (-xv) as nat
            } else {
                0
            };
            lemma_pow10_pos(frac_s@.len() + b);
            let pa = pow10(a);
            assert(10 * nv * pa == 0) by (nonlinear_arith)
                requires
                    nv == 0,
            ;
        }
        return false;
    }
    let mag = exponent_magnitude(ed);
    let x: i128 = if neg {
        -(mag as i128)
    } else {
        mag as i128
    };
    let e: i128 = x - fl as i128 + (dl - z) as i128;
    proof {
        assert(all_digits(d@)) by {
            assert forall|j: int| 0 <= j < d@.len() implies is_digit(#[trigger] d@[j]) by {
                if j < il {
                    assert(d@[j] == int_s@[j]);
                } else {
                    assert(d@[j] == frac_s@[j - il]);
                }
            }
        }
        assert(all_digits(dp)) by {
            assert forall|j: int| 0 <= j < dp.len() implies is_digit(#[trigger] dp[j]) by {
                assert(dp[j] == d@[j + z]);
            }
        }
        assert(dp[0] == d@[z as int]);
        lemma_scaled(dp, frac_s@.len(), signed_value(ed@, neg));
        lemma_digits_value(ed@);
    }
    if e >= 1 {
        true
    } else if e <= -1 {
        false
    } else {
        d.as_str().get_char(z) == '9'
    }
}

/// A protocol `<name>/<version>` is accepted exactly when the name is `HTTP`
/// and the version is a decimal numeral of at least 0.9; the bare name
/// `HTTP` is accepted too.
pub proof fn lemma_protocol_policy(name: Seq<char>, version: Seq<char>)
    requires
        forall|i: int| 0 <= i < name.len() ==> name[i] != '/',
        forall|i: int| 0 <= i < version.len() ==> version[i] != '/',
    ensures
        protocol_ok("HTTP"@),
        protocol_ok(name + seq!['/'] + version) <==> (name == "HTTP"@ && is_valid_version(
            version,
        )),
{
    reveal_strlit("HTTP");
    let sl = seq!['/'];
    let p = name + sl + version;
    lemma_last_index_append(name + sl, version, '/');
    assert((name + sl).drop_last() == name);
    assert(last_index_of(name + sl, '/') == name.len());
    assert(p.subrange(0, name.len() as int) == name);
    assert(p.subrange(name.len() as int + 1, p.len() as int) == version);
    assert(p != "HTTP"@) by {
        assert(p[name.len() as int] == '/');
        if p.len() == 4 {
            assert(p[name.len() as int] != "HTTP"@[name.len() as int]);
        }
    }
}

/// Whether `method` is exactly `GET`.
pub fn is_valid_method(method: &str) -> (r: bool)
    ensures
        r == method_ok(method@),
        r <==> method@ == "GET"@,
{
    str_equal(method, "GET")
}

/// Whether `protocol` is `HTTP`, or `HTTP/<version>` with a decimal version
/// of at least 0.9.
pub fn is_valid_protocol(protocol: &str) -> (r: bool)
    ensures
        r == protocol_ok(protocol@),
{
    if str_equal(protocol, "HTTP") {
        return true;
    }
    let n = protocol.unicode_len();
    match find_last(protocol, '/') {
        None => false,
        Some(k) => {
            str_equal(protocol.substring_char(0, k), "HTTP") && is_valid_version_str(
                protocol.substring_char(k + 1, n),
            )
        },
    }
}

/// Whether `path` is rooted, that is begins with `/`.
pub fn is_rooted(path: &str) -> (r: bool)
    ensures
        r == path_rooted(path@),
{
    path.unicode_len() > 0 && path.get_char(0) == '/'
}

/// Applies the whole policy: a request that breaks any rule is a bad request.
pub fn validate(req: &Request) -> (r: bool)
    ensures
        r == request_ok(*req),
        !method_ok(req.method@) ==> !r,
        !path_rooted(req.path@) ==> !r,
        !protocol_ok(req.protocol@) ==> !r,
{
    is_valid_method(req.method.as_str()) && is_valid_protocol(req.protocol.as_str()) && is_rooted(
        req.path.as_str(),
    )
}

} // verus!
