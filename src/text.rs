use vstd::prelude::*;

use vstd::utf8::{decode_utf8, valid_utf8};

verus! {

/// Relies on `String::from_utf8`: it succeeds exactly on valid UTF-8 and then
/// holds the decoded characters.
#[verifier::external_body]
pub(crate) fn utf8_string(b: Vec<u8>) -> (r: Option<String>)
    ensures
        r is Some == valid_utf8(b@),
        r is Some ==> r->0@ == decode_utf8(b@),
{
    String::from_utf8(b).ok()
}

pub open spec fn is_digit(c: char) -> bool {
    '0' <= c && c <= '9'
}

pub open spec fn is_sign(c: char) -> bool {
    c == '+' || c == '-'
}

/// The first index at or after `i` that does not hold a decimal digit.
pub open spec fn digits_end(s: Seq<char>, i: int) -> int
    decreases s.len() - i,
{
    if i < 0 || i >= s.len() || !is_digit(s[i]) {
        i
    } else {
        digits_end(s, i + 1)
    }
}

/// The index after an optional sign at `i`.
pub open spec fn after_sign(s: Seq<char>, i: int) -> int {
    if 0 <= i < s.len() && is_sign(s[i]) {
        i + 1
    } else {
        i
    }
}

/// `Digit+ | Digit+ '.' Digit* | Digit* '.' Digit+`, then an optional
/// exponent `('e' | 'E') Sign? Digit+`, from index `i` to the end.
pub open spec fn is_decimal_from(s: Seq<char>, i: int) -> bool {
    let a = digits_end(s, i);
    let has_dot = a < s.len() && s[a] == '.';
    let b = if has_dot {
        digits_end(s, a + 1)
    } else {
        a
    };
    let has_digits = a > i || (has_dot && b > a + 1);
    has_digits && (b == s.len() || ((s[b] == 'e' || s[b] == 'E') && {
        let c = after_sign(s, b + 1);
        let d = digits_end(s, c);
        d > c && d == s.len()
    }))
}


/// The value of a decimal digit.
pub open spec fn digit_value(c: char) -> int {
    (c as u32) as int - 48
}

/// The value of a run of decimal digits.
pub open spec fn digits_value(d: Seq<char>) -> int
    decreases d.len(),
{
    if d.len() == 0 {
        0
    } else {
        digits_value(d.drop_last()) * 10 + digit_value(d.last())
    }
}

/// The first index at or after `i` that does not hold `0`.
pub open spec fn first_nonzero(d: Seq<char>, i: int) -> int
    decreases d.len() - i,
{
    if i < 0 || i >= d.len() || d[i] != '0' {
        i
    } else {
        first_nonzero(d, i + 1)
    }
}

/// The `i`-th digit of `d`, with zeros after its end.
pub open spec fn padded(d: Seq<char>, i: int) -> char {
    if 0 <= i < d.len() {
        d[i]
    } else {
        '0'
    }
}

/// Digit strings `a` and `b`, read as the fractions `0.a` and `0.b`: is
/// `0.a < 0.b`, looking from digit `i` on?
pub open spec fn fraction_less(a: Seq<char>, b: Seq<char>, i: int) -> bool
    decreases a.len() + b.len() - i,
{
    if i < 0 || (i >= a.len() && i >= b.len()) {
        false
    } else if padded(a, i) != padded(b, i) {
        padded(a, i) < padded(b, i)
    } else {
        fraction_less(a, b, i + 1)
    }
}

/// The 309 digits of 2^1024 - 2^970: halfway between the largest finite
/// `f64` and 2^1024. Rounding to nearest, ties to even, takes this value and
/// any larger one to infinity, and every smaller one to a finite `f64`.
pub open spec fn f64_limit_digits() -> Seq<char> {
    "179769313486231580793728971405303415079934132710037826936173778980444968292764750946649017977587207096330286416692887910946555547851940402630657488671505820681908902000708383676273854845817711531764475730270069855571366959622842914819860834936475292719074168444365510704342711559699508093042880177904174497792"@
}

/// Is `0.m * 10^q` below 2^1024 - 2^970, where `m` holds the significant
/// digits (its first digit is not `0`)? Such a value lies in
/// `[10^(q-1), 10^q)`, and the bound in `[10^308, 10^309)`.
pub open spec fn below_f64_limit(m: Seq<char>, q: int) -> bool {
    q < 309 || (q == 309 && fraction_less(m, f64_limit_digits(), 0))
}

/// Where the digits of a decimal number from index `i` end, before any
/// exponent.
pub open spec fn mantissa_end(s: Seq<char>, i: int) -> int {
    let a = digits_end(s, i);
    if a < s.len() && s[a] == '.' {
        digits_end(s, a + 1)
    } else {
        a
    }
}

/// The digits of a decimal number from index `i`, without its point.
pub open spec fn mantissa_digits(s: Seq<char>, i: int) -> Seq<char> {
    let a = digits_end(s, i);
    if a < s.len() && s[a] == '.' {
        s.subrange(i, a) + s.subrange(a + 1, digits_end(s, a + 1))
    } else {
        s.subrange(i, a)
    }
}

/// How many digits of a decimal number from index `i` follow its point.
pub open spec fn fraction_len(s: Seq<char>, i: int) -> int {
    let a = digits_end(s, i);
    if a < s.len() && s[a] == '.' {
        digits_end(s, a + 1) - a - 1
    } else {
        0
    }
}

/// The exponent of a decimal number from index `i`; 0 when it has none.
pub open spec fn exponent_value(s: Seq<char>, i: int) -> int {
    let b = mantissa_end(s, i);
    if b >= s.len() {
        0
    } else {
        let v = digits_value(s.subrange(after_sign(s, b + 1), s.len() as int));
        if s[b + 1] == '-' {
            -v
        } else {
            v
        }
    }
}

/// The decimal number from index `i`, whose value is its digits times 10 to
/// its exponent less its fraction's length, rounds to a finite `f64`.
pub open spec fn is_finite_decimal(s: Seq<char>, i: int) -> bool {
    let m = mantissa_digits(s, i);
    let sig = m.skip(first_nonzero(m, 0));
    sig.len() == 0 || below_f64_limit(sig, sig.len() + exponent_value(s, i) - fraction_len(s, i))
}

/// The text of a finite floating-point number: an optional sign, then a
/// decimal number with an optional exponent in the grammar of Rust's `f64`,
/// whose value rounds to a finite `f64`. The spellings of infinity and NaN
/// are no numbers here.
pub open spec fn is_float_text(s: Seq<char>) -> bool {
    let i = after_sign(s, 0);
    is_decimal_from(s, i) && is_finite_decimal(s, i)
}

proof fn lemma_digits_end(s: Seq<char>, i: int)
    requires
        0 <= i <= s.len(),
    ensures
        i <= digits_end(s, i) <= s.len(),
        forall|j: int| i <= j < digits_end(s, i) ==> is_digit(#[trigger] s[j]),
    decreases s.len() - i,
{
    if i < s.len() && is_digit(s[i]) {
        lemma_digits_end(s, i + 1);
    }
}

/// A bound on exponents (2^70): beyond it, only the exponent's sign matters.
const EXPONENT_CAP: i128 = 1180591620717411303424;

fn digits_end_exec(s: &Vec<char>, i: usize) -> (r: usize)
    requires
        i <= s@.len(),
    ensures
        r as int == digits_end(s@, i as int),
        i <= r <= s@.len(),
{
    let mut j = i;
    while j < s.len() && '0' <= s[j] && s[j] <= '9'
        invariant
            i <= j <= s@.len(),
            digits_end(s@, j as int) == digits_end(s@, i as int),
        decreases s@.len() - j,
    {
        j += 1;
    }
    j
}

/// The digits of the decimal number from `i`, without its point.
fn mantissa_exec(cs: &Vec<char>, i: usize, a: usize, has_dot: bool, b: usize) -> (r: Vec<char>)
    requires
        i <= cs@.len(),
        a == digits_end(cs@, i as int),
        i <= a <= b <= cs@.len(),
        has_dot == (a < cs@.len() && cs@[a as int] == '.'),
        b == mantissa_end(cs@, i as int),
    ensures
        r@ == mantissa_digits(cs@, i as int),
{
    let n = cs.len();
    proof {
        lemma_digits_end(cs@, i as int);
        if has_dot {
            lemma_digits_end(cs@, a + 1);
        }
    }
    let mut mant: Vec<char> = Vec::new();
    let mut j: usize = i;
    while j < a
        invariant
            i <= j <= a <= n,
            n == cs@.len(),
            mant@ == cs@.subrange(i as int, j as int),
        decreases a - j,
    {
        mant.push(cs[j]);
        j += 1;
    }
    if has_dot {
        let mut j: usize = a + 1;
        assert(mant@ =~= cs@.subrange(i as int, a as int) + cs@.subrange(a + 1, a + 1));
        while j < b
            invariant
                a + 1 <= j <= b <= n,
                n == cs@.len(),
                mant@ == cs@.subrange(i as int, a as int) + cs@.subrange(a + 1, j as int),
            decreases b - j,
        {
            mant.push(cs[j]);
            j += 1;
            assert(mant@ =~= cs@.subrange(i as int, a as int) + cs@.subrange(a + 1, j as int));
        }
    }
    mant
}

/// The exponent of the decimal number from `i`, held within the cap.
fn exponent_exec(cs: &Vec<char>, i: usize, b: usize) -> (r: i128)
    requires
        i <= cs@.len(),
        is_decimal_from(cs@, i as int),
        b == mantissa_end(cs@, i as int),
    ensures
        -EXPONENT_CAP <= r <= EXPONENT_CAP,
        -EXPONENT_CAP < r < EXPONENT_CAP ==> r == exponent_value(cs@, i as int),
        r == EXPONENT_CAP ==> exponent_value(cs@, i as int) >= EXPONENT_CAP,
        r == -EXPONENT_CAP ==> exponent_value(cs@, i as int) <= -EXPONENT_CAP,
{
    let n = cs.len();
    if b >= n {
        return 0;
    }
    let c0 = b + 1;
    let negative = cs[c0] == '-';
    let c: usize = if cs[c0] == '+' || cs[c0] == '-' {
        c0 + 1
    } else {
        c0
    };
    assert(c == after_sign(cs@, b + 1));
    proof {
        lemma_digits_end(cs@, c as int);
    }
    let mut acc: i128 = 0;
    let mut j: usize = c;
    assert(cs@.subrange(c as int, c as int) =~= Seq::<char>::empty());
    while j < n
        invariant
            c <= j <= n,
            n == cs@.len(),
            forall|m: int| c <= m < n ==> is_digit(#[trigger] cs@[m]),
            digits_value(cs@.subrange(c as int, j as int)) >= 0,
            acc == if digits_value(cs@.subrange(c as int, j as int)) < EXPONENT_CAP {
                digits_value(cs@.subrange(c as int, j as int))
            } else {
                EXPONENT_CAP as int
            },
        decreases n - j,
    {
        let ghost v = digits_value(cs@.subrange(c as int, j as int));
        assert(cs@.subrange(c as int, j + 1).drop_last() =~= cs@.subrange(c as int, j as int));
        assert(is_digit(cs@[j as int]));
        let d = (cs[j] as u32 - 48) as i128;
        assert(v >= EXPONENT_CAP ==> 10 * v + d >= EXPONENT_CAP) by (nonlinear_arith)
            requires
                d >= 0,
                v >= 0,
        ;
        acc = acc * 10 + d;
        if acc > EXPONENT_CAP {
            acc = EXPONENT_CAP;
        }
        j += 1;
    }
    if negative {
        -acc
    } else {
        acc
    }
}

/// Is `0.d * 10^q` below 2^1024 - 2^970, where `d` is `m` from index `z`?
fn below_limit_exec(m: &Vec<char>, z: usize, q: i128) -> (r: bool)
    requires
        z <= m@.len(),
    ensures
        r == below_f64_limit(m@.skip(z as int), q as int),
{
    if q < 309 {
        return true;
    }
    if q > 309 {
        return false;
    }
    let ghost sig = m@.skip(z as int);
    let mlen = m.len();
    let sig_len = mlen - z;
    let lim = "179769313486231580793728971405303415079934132710037826936173778980444968292764750946649017977587207096330286416692887910946555547851940402630657488671505820681908902000708383676273854845817711531764475730270069855571366959622842914819860834936475292719074168444365510704342711559699508093042880177904174497792";
    proof {
        reveal_strlit("179769313486231580793728971405303415079934132710037826936173778980444968292764750946649017977587207096330286416692887910946555547851940402630657488671505820681908902000708383676273854845817711531764475730270069855571366959622842914819860834936475292719074168444365510704342711559699508093042880177904174497792");
    }
    assert(lim@ == f64_limit_digits());
    let total: usize = if sig_len > 309 {
        sig_len
    } else {
        309
    };
    let mut k: usize = 0;
    while k < total
        invariant
            q == 309,
            sig == m@.skip(z as int),
            mlen == m@.len(),
            sig_len == sig.len(),
            z + sig_len == m@.len(),
            lim@ == f64_limit_digits(),
            lim@.len() == 309,
            total == if sig_len > 309 {
                sig_len
            } else {
                309
            },
            k <= total,
            fraction_less(sig, lim@, k as int) == fraction_less(sig, lim@, 0),
        decreases total - k,
    {
        let x = if k < sig_len {
            m[z + k]
        } else {
            '0'
        };
        let y = if k < 309 {
            lim.get_char(k)
        } else {
            '0'
        };
        assert(x == padded(sig, k as int));
        assert(y == padded(lim@, k as int));
        if x != y {
            assert(fraction_less(sig, lim@, k as int) == (x < y));
            return x < y;
        }
        k += 1;
    }
    false
}

/// Decides whether `s` is the text of a finite floating-point number.
#[verifier::rlimit(50)]
pub fn float_text(s: &str) -> (r: bool)
    ensures
        r == is_float_text(s@),
{
    let n = s.unicode_len();
    let mut cs: Vec<char> = Vec::new();
    let mut k: usize = 0;
    while k < n
        invariant
            n == s@.len(),
            k <= n,
            cs@ == s@.subrange(0, k as int),
        decreases n - k,
    {
        cs.push(s.get_char(k));
        k += 1;
    }
    assert(cs@ == s@);
    let i: usize = if n > 0 && (cs[0] == '+' || cs[0] == '-') {
        1
    } else {
        0
    };
    let a = digits_end_exec(&cs, i);
    let has_dot = a < n && cs[a] == '.';
    let b = if has_dot {
        digits_end_exec(&cs, a + 1)
    } else {
        a
    };
    let has_digits = a > i || (has_dot && b > a + 1);
    let decimal = has_digits && (b == n || ((cs[b] == 'e' || cs[b] == 'E') && {
        let c: usize = if b + 1 < n && (cs[b + 1] == '+' || cs[b + 1] == '-') {
            b + 2
        } else {
            b + 1
        };
        let d = digits_end_exec(&cs, c);
        d > c && d == n
    }));
    if !decimal {
        return false;
    }
    let mant = mantissa_exec(&cs, i, a, has_dot, b);
    let frac_len: usize = if has_dot {
        b - a - 1
    } else {
        0
    };
    let mut z: usize = 0;
    while z < mant.len() && mant[z] == '0'
        invariant
            z <= mant@.len(),
            first_nonzero(mant@, z as int) == first_nonzero(mant@, 0),
        decreases mant@.len() - z,
    {
        z += 1;
    }
    let sig_len = mant.len() - z;
    if sig_len == 0 {
        return true;
    }
    let e = exponent_exec(&cs, i, b);
    let q: i128 = sig_len as i128 + e - frac_len as i128;
    let ghost q_text = sig_len + exponent_value(s@, i as int) - fraction_len(s@, i as int);
    assert(cs@ == s@);
    proof {
        if -EXPONENT_CAP < e < EXPONENT_CAP {
            assert(q == q_text);
        }
    }
    assert(q < 309 <==> q_text < 309);
    assert(q == 309 <==> q_text == 309);
    below_limit_exec(&mant, z, q)
}

} // verus!
