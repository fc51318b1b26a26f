//! Decimal text for fixed-point microdegree values.
//!
//! A value `v` in microdegrees is written as `-`? integer part, `.`, then the
//! six fractional digits with trailing zeros trimmed (at least one digit is
//! kept), so `10_000_000` reads `10.0` and `-500_000` reads `-0.5`.
//! The same module holds the digit-run scanner the wire parser uses.

use vstd::prelude::*;

verus! {

/// Whether `c` is a decimal digit.
pub open spec fn is_digit(c: char) -> bool {
    48 <= c as u32 <= 57
}

/// Numeric value of a digit character.
pub open spec fn digit_val(c: char) -> int {
    c as u32 - 48
}

/// Digit character for a value in 0..=9.
pub open spec fn digit_char(d: int) -> char {
    if d == 0 {
        '0'
    } else if d == 1 {
        '1'
    } else if d == 2 {
        '2'
    } else if d == 3 {
        '3'
    } else if d == 4 {
        '4'
    } else if d == 5 {
        '5'
    } else if d == 6 {
        '6'
    } else if d == 7 {
        '7'
    } else if d == 8 {
        '8'
    } else {
        '9'
    }
}

/// Ten to the `n`.
pub open spec fn pow10(n: nat) -> nat
    decreases n,
{
    if n == 0 {
        1
    } else {
        10 * pow10((n - 1) as nat)
    }
}

/// Decimal digits of `n`, most significant first, no leading zeros
/// (a single `0` for zero).
pub open spec fn dec_rep(n: nat) -> Seq<char>
    decreases n,
{
    if n < 10 {
        seq![digit_char(n as int)]
    } else {
        dec_rep(n / 10).push(digit_char((n % 10) as int))
    }
}

/// The low `width` decimal digits of `f`, zero padded.
pub open spec fn padded_rep(f: nat, width: nat) -> Seq<char>
    decreases width,
{
    if width == 0 {
        Seq::empty()
    } else {
        padded_rep(f / 10, (width - 1) as nat).push(digit_char((f % 10) as int))
    }
}

/// Drop trailing `'0'` characters, but keep at least one character.
pub open spec fn trim_zeros(s: Seq<char>) -> Seq<char>
    decreases s.len(),
{
    if s.len() <= 1 {
        s
    } else if s.last() == '0' {
        trim_zeros(s.drop_last())
    } else {
        s
    }
}

/// Text of a fraction of a degree, given in microdegrees (0..1_000_000).
pub open spec fn frac_rep(f: nat) -> Seq<char> {
    trim_zeros(padded_rep(f, 6))
}

/// Text of a nonnegative microdegree value.
pub open spec fn micro_unsigned_rep(n: nat) -> Seq<char> {
    dec_rep(n / 1_000_000) + seq!['.'] + frac_rep(n % 1_000_000)
}

/// Text of a microdegree value.
pub open spec fn micro_rep(v: int) -> Seq<char> {
    if v < 0 {
        seq!['-'] + micro_unsigned_rep((-v) as nat)
    } else {
        micro_unsigned_rep(v as nat)
    }
}

/// Value of a sequence of digit characters read as a decimal number.
pub open spec fn val_of(ds: Seq<char>) -> int
    decreases ds.len(),
{
    if ds.len() == 0 {
        0
    } else {
        val_of(ds.drop_last()) * 10 + digit_val(ds.last())
    }
}

/// Length of the run of digit characters starting at `i`.
pub open spec fn digit_run(s: Seq<char>, i: int) -> nat
    decreases s.len() - i,
{
    if i < 0 || i >= s.len() || !is_digit(s[i]) {
        0
    } else {
        (1 + digit_run(s, i + 1)) as nat
    }
}

/// The first ten powers of ten, spelled out.
pub proof fn lemma_pow10_values()
    ensures
        pow10(0) == 1,
        pow10(1) == 10,
        pow10(2) == 100,
        pow10(3) == 1000,
        pow10(4) == 10000,
        pow10(5) == 100000,
        pow10(6) == 1000000,
        pow10(7) == 10000000,
        pow10(8) == 100000000,
        pow10(9) == 1000000000,
{
    assert(pow10(0) == 1);
    assert(pow10(1) == 10);
    assert(pow10(2) == 100);
    assert(pow10(3) == 1000);
    assert(pow10(4) == 10000);
    assert(pow10(5) == 100000);
    assert(pow10(6) == 1000000);
    assert(pow10(7) == 10000000);
    assert(pow10(8) == 100000000);
    assert(pow10(9) == 1000000000);
}

/// Powers of ten are at least one and grow with the exponent.
pub proof fn lemma_pow10_mono(a: nat, b: nat)
    requires
        a <= b,
    ensures
        1 <= pow10(a) <= pow10(b),
    decreases b,
{
    if b > 0 {
        if a < b {
            lemma_pow10_mono(a, (b - 1) as nat);
        } else {
            lemma_pow10_mono((a - 1) as nat, (b - 1) as nat);
        }
    }
}

/// `digit_run` counts exactly the digits up to the first non-digit.
pub proof fn lemma_digit_run_exact(s: Seq<char>, i: int, j: int)
    requires
        0 <= i <= j <= s.len(),
        forall|k: int| i <= k < j ==> is_digit(#[trigger] s[k]),
        j == s.len() || !is_digit(s[j]),
    ensures
        digit_run(s, i) == j - i,
    decreases j - i,
{
    if i < j {
        lemma_digit_run_exact(s, i + 1, j);
    }
}

/// A stretch of digits gives `digit_run` at least its length.
pub proof fn lemma_digit_run_lower(s: Seq<char>, i: int, j: int)
    requires
        0 <= i <= j <= s.len(),
        forall|k: int| i <= k < j ==> is_digit(#[trigger] s[k]),
    ensures
        digit_run(s, i) >= j - i,
    decreases j - i,
{
    if i < j {
        lemma_digit_run_lower(s, i + 1, j);
    }
}

/// The padded representation has exactly `width` characters, all digits.
pub proof fn lemma_padded_rep_len(f: nat, width: nat)
    ensures
        padded_rep(f, width).len() == width,
        forall|k: int|
            0 <= k < width ==> is_digit(#[trigger] padded_rep(f, width)[k]),
    decreases width,
{
    if width > 0 {
        lemma_padded_rep_len(f / 10, (width - 1) as nat);
    }
}

/// Digit characters evaluate back to their value.
pub proof fn lemma_digit_char_val(d: int)
    requires
        0 <= d <= 9,
    ensures
        is_digit(digit_char(d)),
        digit_val(digit_char(d)) == d,
{
}

/// The plain decimal text is made of digits; its length grows with the
/// value, staying within `k` digits below `pow10(k)`.
pub proof fn lemma_dec_rep_digits(n: nat)
    ensures
        dec_rep(n).len() >= 1,
        forall|t: int| 0 <= t < dec_rep(n).len() ==> is_digit(#[trigger] dec_rep(n)[t]),
    decreases n,
{
    if n < 10 {
        lemma_digit_char_val(n as int);
    } else {
        lemma_dec_rep_digits(n / 10);
        lemma_digit_char_val((n % 10) as int);
    }
}

/// Below `pow10(k)` the plain decimal text has at most `k` digits.
pub proof fn lemma_dec_rep_len(n: nat, k: nat)
    requires
        1 <= k,
        n < pow10(k),
    ensures
        dec_rep(n).len() <= k,
    decreases n,
{
    if n >= 10 {
        assert(pow10(k) == 10 * pow10((k - 1) as nat));
        lemma_dec_rep_len(n / 10, (k - 1) as nat);
    }
}

/// Reading the plain decimal text back gives the value.
pub proof fn lemma_val_of_dec_rep(n: nat)
    ensures
        val_of(dec_rep(n)) == n,
    decreases n,
{
    if n < 10 {
        lemma_digit_char_val(n as int);
        assert(dec_rep(n).drop_last() =~= Seq::<char>::empty());
        assert(val_of(Seq::<char>::empty()) == 0);
    } else {
        lemma_val_of_dec_rep(n / 10);
        lemma_digit_char_val((n % 10) as int);
        assert(dec_rep(n).drop_last() =~= dec_rep(n / 10));
    }
}

/// Reading the padded text back gives the value, when it fits the width.
pub proof fn lemma_val_of_padded(f: nat, w: nat)
    requires
        f < pow10(w),
    ensures
        val_of(padded_rep(f, w)) == f,
    decreases w,
{
    if w > 0 {
        assert(pow10(w) == 10 * pow10((w - 1) as nat));
        lemma_val_of_padded(f / 10, (w - 1) as nat);
        lemma_digit_char_val((f % 10) as int);
        assert(padded_rep(f, w).drop_last() =~= padded_rep(f / 10, (w - 1) as nat));
    } else {
        assert(f == 0);
        assert(val_of(Seq::<char>::empty()) == 0);
    }
}

proof fn lemma_trim_props(f: nat, w: nat)
    requires
        1 <= w,
        f < pow10(w),
    ensures
        1 <= trim_zeros(padded_rep(f, w)).len() <= w,
        forall|t: int|
            0 <= t < trim_zeros(padded_rep(f, w)).len() ==> is_digit(
                #[trigger] trim_zeros(padded_rep(f, w))[t],
            ),
        val_of(trim_zeros(padded_rep(f, w))) * pow10(
            (w - trim_zeros(padded_rep(f, w)).len()) as nat,
        ) == f,
    decreases w,
{
    lemma_padded_rep_len(f, w);
    if w >= 2 && f % 10 == 0 {
        lemma_trim_step(f, w);
        assert(pow10(w) == 10 * pow10((w - 1) as nat));
        lemma_trim_props(f / 10, (w - 1) as nat);
        let t = trim_zeros(padded_rep(f / 10, (w - 1) as nat));
        let v = val_of(t);
        let q = pow10(((w - 1) - t.len()) as nat);
        assert(v * q == f / 10);
        assert(pow10((w - t.len()) as nat) == 10 * q);
        assert(v * (10 * q) == 10 * (v * q)) by (nonlinear_arith);
        assert(f == 10 * (f / 10));
    } else {
        lemma_trim_done(f, w);
        lemma_val_of_padded(f, w);
        assert(pow10((w - padded_rep(f, w).len()) as nat) == 1);
    }
}

/// The fraction text has one to six digit characters, and scaling its value
/// back up by the trimmed places gives the microdegree fraction.
pub proof fn lemma_frac_rep_props(f: nat)
    requires
        f < 1_000_000,
    ensures
        1 <= frac_rep(f).len() <= 6,
        forall|t: int| 0 <= t < frac_rep(f).len() ==> is_digit(#[trigger] frac_rep(f)[t]),
        val_of(frac_rep(f)) * pow10((6 - frac_rep(f).len()) as nat) == f,
{
    lemma_pow10_values();
    lemma_trim_props(f, 6);
}

/// One character of a digit string.
fn digit_str(d: u64) -> (r: &'static str)
    requires
        d < 10,
    ensures
        r@ =~= seq![digit_char(d as int)],
{
    proof {
        reveal_strlit("0");
        reveal_strlit("1");
        reveal_strlit("2");
        reveal_strlit("3");
        reveal_strlit("4");
        reveal_strlit("5");
        reveal_strlit("6");
        reveal_strlit("7");
        reveal_strlit("8");
        reveal_strlit("9");
    }
    if d == 0 {
        "0"
    } else if d == 1 {
        "1"
    } else if d == 2 {
        "2"
    } else if d == 3 {
        "3"
    } else if d == 4 {
        "4"
    } else if d == 5 {
        "5"
    } else if d == 6 {
        "6"
    } else if d == 7 {
        "7"
    } else if d == 8 {
        "8"
    } else {
        "9"
    }
}

/// Decimal text of `n`, no leading zeros.
pub fn fmt_u64(n: u64) -> (r: String)
    ensures
        r@ == dec_rep(n as nat),
    decreases n,
{
    if n < 10 {
        let r = digit_str(n).to_owned();
        proof {
            assert(r@ =~= dec_rep(n as nat));
        }
        r
    } else {
        let mut r = fmt_u64(n / 10);
        r.append(digit_str(n % 10));
        proof {
            assert(r@ =~= dec_rep(n as nat));
        }
        r
    }
}

/// The low `width` decimal digits of `f`, zero padded.
fn fmt_padded(f: u64, width: u64) -> (r: String)
    requires
        1 <= width,
    ensures
        r@ == padded_rep(f as nat, width as nat),
    decreases width,
{
    if width == 1 {
        let r = digit_str(f % 10).to_owned();
        proof {
            assert(padded_rep((f / 10) as nat, 0) =~= Seq::<char>::empty());
            assert(padded_rep(f as nat, 1) =~= seq![digit_char((f % 10) as int)]);
            assert(r@ =~= padded_rep(f as nat, 1));
        }
        r
    } else {
        let mut r = fmt_padded(f / 10, width - 1);
        r.append(digit_str(f % 10));
        proof {
            assert(r@ =~= padded_rep(f as nat, width as nat));
        }
        r
    }
}

/// Trimming ignores a trailing zero digit.
proof fn lemma_trim_step(f: nat, width: nat)
    requires
        2 <= width,
        f % 10 == 0,
    ensures
        trim_zeros(padded_rep(f, width)) == trim_zeros(padded_rep(f / 10, (width - 1) as nat)),
{
    let inner = padded_rep(f / 10, (width - 1) as nat);
    lemma_padded_rep_len(f / 10, (width - 1) as nat);
    assert(padded_rep(f, width) == inner.push(digit_char((f % 10) as int)));
    assert(digit_char((f % 10) as int) == '0');
    assert(padded_rep(f, width).last() == '0');
    assert(padded_rep(f, width).drop_last() =~= inner);
}

/// Once the last digit is nonzero (or one digit is left), trimming is done.
proof fn lemma_trim_done(f: nat, width: nat)
    requires
        1 <= width,
        width == 1 || f % 10 != 0,
    ensures
        trim_zeros(padded_rep(f, width)) == padded_rep(f, width),
{
    lemma_padded_rep_len(f, width);
    if width > 1 {
        assert(padded_rep(f, width).last() == digit_char((f % 10) as int));
        assert(digit_char((f % 10) as int) != '0');
    }
}

/// Fractional part text: six digits of `f`, trailing zeros trimmed.
fn frac_str(f: u64) -> (r: String)
    requires
        f < 1_000_000,
    ensures
        r@ == frac_rep(f as nat),
{
    let mut g = f;
    let mut width: u64 = 6;
    while g % 10 == 0 && width > 1
        invariant
            1 <= width <= 6,
            g < 1_000_000,
            trim_zeros(padded_rep(f as nat, 6)) == trim_zeros(padded_rep(g as nat, width as nat)),
        decreases width,
    {
        proof {
            lemma_trim_step(g as nat, width as nat);
        }
        g = g / 10;
        width = width - 1;
    }
    proof {
        lemma_trim_done(g as nat, width as nat);
    }
    fmt_padded(g, width)
}

/// Nonnegative microdegree value as decimal text.
fn fmt_micro_unsigned(n: u64) -> (r: String)
    requires
        n <= 1_000_000_000_000_000,
    ensures
        r@ == micro_unsigned_rep(n as nat),
{
    let mut r = fmt_u64(n / 1_000_000);
    r.append(".");
    let frac = frac_str(n % 1_000_000);
    r.append(frac.as_str());
    proof {
        reveal_strlit(".");
        assert(r@ =~= micro_unsigned_rep(n as nat));
    }
    r
}

/// Microdegree value as decimal text, `10_000_000` reading `10.0`.
pub fn fmt_micro(v: i64) -> (r: String)
    requires
        -1_000_000_000_000_000 <= v <= 1_000_000_000_000_000,
    ensures
        r@ == micro_rep(v as int),
{
    if v < 0 {
        let mut r = "-".to_owned();
        let rest = fmt_micro_unsigned((-v) as u64);
        r.append(rest.as_str());
        proof {
            reveal_strlit("-");
            assert(r@ =~= micro_rep(v as int));
        }
        r
    } else {
        fmt_micro_unsigned(v as u64)
    }
}

/// Whether `c` is a decimal digit.
pub fn is_digit_char(c: char) -> (r: bool)
    ensures
        r == is_digit(c),
{
    let u = c as u32;
    48 <= u && u <= 57
}

} // verus!
