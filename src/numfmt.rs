//! Integer-to-ASCII formatting without a general-purpose formatter.
use vstd::prelude::*;

verus! {

/// ASCII code of the decimal digit `d` (0..=9).
pub open spec fn digit_char(d: nat) -> u8 {
    (48 + d) as u8
}

/// The decimal text of a natural number, most significant digit first,
/// with no leading zeros ("0" for zero).
pub open spec fn dec_digits(n: nat) -> Seq<u8>
    decreases n,
{
    if n < 10 {
        seq![digit_char(n)]
    } else {
        dec_digits(n / 10).push(digit_char(n % 10))
    }
}

/// The decimal text of a signed integer: a leading `-` for negatives.
pub open spec fn dec_signed(v: int) -> Seq<u8> {
    if v < 0 {
        seq![45u8] + dec_digits((-v) as nat)
    } else {
        dec_digits(v as nat)
    }
}

/// Value of a run of ASCII decimal digits, read left to right.
pub open spec fn parse_digits(s: Seq<u8>) -> int
    decreases s.len(),
{
    if s.len() == 0 {
        0
    } else {
        parse_digits(s.drop_last()) * 10 + (s.last() - 48)
    }
}

/// Value of an optionally `-`-prefixed decimal text.
pub open spec fn parse_signed(s: Seq<u8>) -> int {
    if s.len() > 0 && s[0] == 45u8 {
        -parse_digits(s.subrange(1, s.len() as int))
    } else {
        parse_digits(s)
    }
}

pub open spec fn pow10(e: nat) -> nat
    decreases e,
{
    if e == 0 {
        1
    } else {
        10 * pow10((e - 1) as nat)
    }
}

proof fn lemma_dec_digits_len(n: nat, k: nat)
    requires
        n < pow10(k),
        k >= 1,
    ensures
        dec_digits(n).len() <= k,
    decreases n,
{
    if n >= 10 {
        assert(n / 10 < pow10((k - 1) as nat)) by (nonlinear_arith)
            requires
                n < pow10(k),
                pow10(k) == 10 * pow10((k - 1) as nat),
                n >= 10,
        ;
        assert(k >= 2) by {
            if k == 1 {
                assert(pow10(0) == 1);
            }
        }
        lemma_dec_digits_len(n / 10, (k - 1) as nat);
    }
}

pub(crate) proof fn lemma_dec_digits_shape(n: nat)
    ensures
        dec_digits(n).len() >= 1,
        forall|i: int| 0 <= i < dec_digits(n).len() ==> 48 <= #[trigger] dec_digits(n)[i] <= 57,
    decreases n,
{
    if n >= 10 {
        lemma_dec_digits_shape(n / 10);
    }
}

/// Two digits at a time: the text of `n >= 100` is the text of `n / 100`
/// followed by the two digits of `n % 100`.
proof fn lemma_dec_digits_pair(n: nat)
    requires
        n >= 100,
    ensures
        dec_digits(n) == dec_digits(n / 100) + seq![
            digit_char((n % 100) / 10),
            digit_char(n % 10),
        ],
{
    assert((n / 10) / 10 == n / 100) by (nonlinear_arith)
        requires
            n >= 100,
    ;
    assert((n / 10) % 10 == (n % 100) / 10) by (nonlinear_arith)
        requires
            n >= 100,
    ;
    assert(n / 10 >= 10) by (nonlinear_arith)
        requires
            n >= 100,
    ;
    assert(dec_digits(n) == dec_digits(n / 10).push(digit_char(n % 10)));
    assert(dec_digits(n / 10) == dec_digits((n / 10) / 10).push(digit_char((n / 10) % 10)));
    assert(dec_digits(n) =~= dec_digits(n / 100) + seq![
        digit_char((n % 100) / 10),
        digit_char(n % 10),
    ]);
}

/// Writes the decimal text of `val` into `buf` starting at `start`; returns
/// the number of bytes written.  Digits are produced two at a time from the
/// least significant end.
fn put_decimal(buf: &mut [u8], start: usize, val: u64) -> (len: usize)
    requires
        start + dec_digits(val as nat).len() <= old(buf)@.len(),
    ensures
        len == dec_digits(val as nat).len(),
        final(buf)@.len() == old(buf)@.len(),
        final(buf)@ == old(buf)@.subrange(0, start as int) + dec_digits(val as nat)
            + old(buf)@.subrange(start + len, old(buf)@.len() as int),
{
    let mut tmp: [u8; 20] = [0u8; 20];
    let mut pos: usize = 20;
    let mut v: u64 = val;
    proof {
        reveal_with_fuel(pow10, 21);
        assert(pow10(20) == 100000000000000000000nat);
        lemma_dec_digits_len(val as nat, 20);
    }
    while v >= 100
        invariant
            v <= val,
            pos <= 20,
            dec_digits(val as nat) == dec_digits(v as nat) + tmp@.subrange(pos as int, 20),
            dec_digits(v as nat).len() <= pos,
        decreases v,
    {
        let rem = v % 100;
        proof {
            lemma_dec_digits_pair(v as nat);
        }
        let ghost old_v = v;
        let ghost old_tail = tmp@.subrange(pos as int, 20);
        v = v / 100;
        proof {
            lemma_dec_digits_shape(v as nat);
        }
        pos = pos - 2;
        tmp[pos] = (48 + rem / 10) as u8;
        tmp[pos + 1] = (48 + rem % 10) as u8;
        proof {
            assert(tmp@.subrange(pos as int, 20) =~= seq![
                digit_char((old_v as nat % 100) / 10),
                digit_char(old_v as nat % 10),
            ] + old_tail);
            assert((old_v as nat % 100) % 10 == old_v as nat % 10) by (nonlinear_arith);
        }
    }
    if v >= 10 {
        let ghost old_tail = tmp@.subrange(pos as int, 20);
        proof {
            assert(dec_digits(v as nat) == dec_digits(v as nat / 10).push(digit_char(v as nat % 10)));
            assert(dec_digits(v as nat / 10) == seq![digit_char(v as nat / 10)]);
        }
        pos = pos - 2;
        tmp[pos] = (48 + v / 10) as u8;
        tmp[pos + 1] = (48 + v % 10) as u8;
        proof {
            assert(tmp@.subrange(pos as int, 20) =~= seq![
                digit_char(v as nat / 10),
                digit_char(v as nat % 10),
            ] + old_tail);
        }
    } else {
        let ghost old_tail = tmp@.subrange(pos as int, 20);
        pos = pos - 1;
        tmp[pos] = (48 + v) as u8;
        proof {
            assert(tmp@.subrange(pos as int, 20) =~= seq![digit_char(v as nat)] + old_tail);
        }
    }
    let len = 20 - pos;
    let ghost b0 = buf@;
    let blen = buf.len();
    let mut i: usize = 0;
    while i < len
        invariant
            len == 20 - pos,
            pos <= 20,
            i <= len,
            start + len <= b0.len(),
            blen == b0.len(),
            buf@.len() == b0.len(),
            tmp@.subrange(pos as int, 20) == dec_digits(val as nat),
            forall|k: int| 0 <= k < start ==> buf@[k] == b0[k],
            forall|k: int| start + len <= k < b0.len() ==> buf@[k] == b0[k],
            forall|k: int| 0 <= k < i ==> #[trigger] buf@[start + k] == tmp@[pos + k],
        decreases len - i,
    {
        buf[start + i] = tmp[pos + i];
        i = i + 1;
    }
    let ghost want = b0.subrange(0, start as int) + dec_digits(val as nat) + b0.subrange(
        start + len,
        b0.len() as int,
    );
    assert forall|k: int| 0 <= k < b0.len() implies buf@[k] == want[k] by {
        if start <= k < start + len {
            assert(buf@[start + (k - start)] == tmp@[pos + (k - start)]);
        }
    }
    assert(buf@ =~= b0.subrange(0, start as int) + dec_digits(val as nat) + b0.subrange(
        start + len,
        b0.len() as int,
    ));
    len
}

/// Bound on the length of the decimal text of a 32-bit value.
pub proof fn lemma_dec_digits_u32(v: u32)
    ensures
        1 <= dec_digits(v as nat).len() <= 10,
{
    reveal_with_fuel(pow10, 11);
    assert(pow10(10) == 10000000000nat);
    lemma_dec_digits_len(v as nat, 10);
    lemma_dec_digits_shape(v as nat);
}

/// Bound on the length of the decimal text of a 64-bit value.
pub proof fn lemma_dec_digits_u64(v: u64)
    ensures
        1 <= dec_digits(v as nat).len() <= 20,
{
    reveal_with_fuel(pow10, 21);
    assert(pow10(20) == 100000000000000000000nat);
    lemma_dec_digits_len(v as nat, 20);
    lemma_dec_digits_shape(v as nat);
}

/// Writes the decimal text of `val` at the start of `buf` and returns its
/// length; the rest of `buf` is left as it was.
pub fn write_u32_fast(buf: &mut [u8], val: u32) -> (len: usize)
    requires
        old(buf)@.len() >= 10,
    ensures
        len == dec_digits(val as nat).len(),
        len <= old(buf)@.len(),
        final(buf)@.len() == old(buf)@.len(),
        final(buf)@ == dec_digits(val as nat) + old(buf)@.subrange(len as int, old(buf)@.len() as int),
{
    proof {
        lemma_dec_digits_u32(val);
    }
    let len = put_decimal(buf, 0, val as u64);
    assert(old(buf)@.subrange(0, 0) + dec_digits(val as nat) =~= dec_digits(val as nat));
    len
}

/// Writes the decimal text of `val`, with a leading `-` when negative, at
/// the start of `buf` and returns its length.
pub fn write_i32_fast(buf: &mut [u8], val: i32) -> (len: usize)
    requires
        old(buf)@.len() >= 11,
    ensures
        len == dec_signed(val as int).len(),
        len <= old(buf)@.len(),
        final(buf)@.len() == old(buf)@.len(),
        final(buf)@ == dec_signed(val as int) + old(buf)@.subrange(len as int, old(buf)@.len() as int),
{
    if val >= 0 {
        write_u32_fast(buf, val as u32)
    } else {
        let mag: u32 = if val == i32::MIN { 2147483648u32 } else { (-val) as u32 };
        proof {
            lemma_dec_digits_u32(mag);
        }
        let ghost b0 = buf@;
        buf[0] = 45u8;
        let ghost b1 = buf@;
        let n = put_decimal(buf, 1, mag as u64);
        assert(buf@ =~= dec_signed(val as int) + b0.subrange(1 + n, b0.len() as int));
        1 + n
    }
}

/// Writes the decimal text of `val` at the start of `buf` and returns its
/// length; values that fit in 32 bits take the 32-bit path.
pub fn write_u64_fast(buf: &mut [u8], val: u64) -> (len: usize)
    requires
        old(buf)@.len() >= 20,
    ensures
        len == dec_digits(val as nat).len(),
        len <= old(buf)@.len(),
        final(buf)@.len() == old(buf)@.len(),
        final(buf)@ == dec_digits(val as nat) + old(buf)@.subrange(len as int, old(buf)@.len() as int),
{
    if val <= 4294967295u64 {
        return write_u32_fast(buf, val as u32);
    }
    proof {
        lemma_dec_digits_u64(val);
    }
    let len = put_decimal(buf, 0, val);
    assert(old(buf)@.subrange(0, 0) + dec_digits(val as nat) =~= dec_digits(val as nat));
    len
}

/// What stripping trailing zero digits leaves: the value and the number of
/// digits still counted, one zero digit removed at a time while any remain.
pub open spec fn stripped(val: nat, digits: nat) -> (nat, nat)
    decreases digits,
{
    if digits >= 1 && val % 10 == 0 {
        stripped(val / 10, (digits - 1) as nat)
    } else {
        (val, digits)
    }
}

/// Removes trailing zero digits from a `digits`-digit decimal value, two at
/// a time and then one, e.g. `(12300, 5)` gives `(123, 3)`.
pub fn strip_trailing_zeros(val: u64, digits: u32) -> (r: (u64, u32))
    ensures
        (r.0 as nat, r.1 as nat) == stripped(val as nat, digits as nat),
{
    let mut v = val;
    let mut d = digits;
    while d >= 2 && v % 100 == 0
        invariant
            stripped(v as nat, d as nat) == stripped(val as nat, digits as nat),
        decreases d,
    {
        proof {
            assert((v as nat) % 10 == 0 && (v as nat / 10) % 10 == 0 && (v as nat / 10) / 10 == v as nat / 100) by (nonlinear_arith)
                requires
                    (v as nat) % 100 == 0,
            ;
            assert(stripped(v as nat, d as nat) == stripped(v as nat / 10, (d - 1) as nat));
            assert(stripped(v as nat / 10, (d - 1) as nat) == stripped(v as nat / 100, (d - 2) as nat));
        }
        v = v / 100;
        d = d - 2;
    }
    if d >= 1 && v % 10 == 0 {
        proof {
            assert(stripped(v as nat, d as nat) == stripped(v as nat / 10, (d - 1) as nat));
            if d >= 2 {
                assert((v as nat / 10) % 10 != 0) by (nonlinear_arith)
                    requires
                        (v as nat) % 100 != 0,
                        (v as nat) % 10 == 0,
                ;
            }
        }
        v = v / 10;
        d = d - 1;
    }
    (v, d)
}

/// The last `d` decimal digits of `v`, with leading zeros.
pub open spec fn padded_digits(v: nat, d: nat) -> Seq<u8>
    decreases d,
{
    if d == 0 {
        Seq::empty()
    } else {
        padded_digits(v / 10, (d - 1) as nat).push(digit_char(v % 10))
    }
}

/// A fraction of `d` digits worth `v` after its trailing zeros are dropped:
/// nothing when none remain, else a point and the remaining digits.
pub open spec fn fraction_text(v: nat, d: nat) -> Seq<u8> {
    let (f, k) = stripped(v, d);
    if k > 0 {
        seq![46u8] + padded_digits(f, k)
    } else {
        Seq::empty()
    }
}

/// `%.6g` fixed notation of a value scaled to the integer `rounded` with
/// `frac_digits` digits after the point.
pub open spec fn g6_fixed_text(rounded: nat, frac_digits: nat) -> Seq<u8> {
    dec_digits(rounded / pow10(frac_digits)) + fraction_text(rounded % pow10(frac_digits), frac_digits)
}

/// The mantissa and exponent once a six-digit mantissa that rounding
/// carried to seven digits is brought back.
pub open spec fn g6_exp_parts(rounded: nat, e: int) -> (nat, int) {
    if rounded >= 1000000 {
        (rounded / 10, e + 1)
    } else {
        (rounded, e)
    }
}

/// An exponent: explicit sign and at least two digits.
pub open spec fn exponent_text(e: int) -> Seq<u8> {
    let m = if e < 0 {
        -e
    } else {
        e
    };
    let sign = if e < 0 {
        45u8
    } else {
        43u8
    };
    seq![101u8, sign] + if m < 10 {
        seq![48u8, digit_char(m as nat)]
    } else {
        dec_digits(m as nat)
    }
}

/// `%.6g` exponential notation of a value whose significand, scaled by
/// 10^5, rounds to `rounded`, with decimal exponent `e`.
pub open spec fn g6_exp_text(rounded: nat, e: int) -> Seq<u8> {
    let (r, x) = g6_exp_parts(rounded, e);
    seq![digit_char(r / 100000)] + fraction_text(r % 100000, 5) + exponent_text(x)
}

proof fn lemma_pow10_pos(e: nat)
    ensures
        pow10(e) >= 1,
    decreases e,
{
    if e > 0 {
        lemma_pow10_pos((e - 1) as nat);
    }
}

proof fn lemma_stripped_bound(v: nat, d: nat)
    ensures
        stripped(v, d).1 <= d,
        v < pow10(d) ==> stripped(v, d).0 < pow10(stripped(v, d).1),
    decreases d,
{
    if d >= 1 && v % 10 == 0 {
        lemma_stripped_bound(v / 10, (d - 1) as nat);
        if v < pow10(d) {
            assert(v / 10 < pow10((d - 1) as nat)) by (nonlinear_arith)
                requires
                    v < pow10(d),
                    pow10(d) == 10 * pow10((d - 1) as nat),
            ;
        }
    }
}

/// Appends the `d` low decimal digits of `v`, zero-padded.
fn push_padded(buf: &mut Vec<u8>, v: u64, d: u32)
    requires
        d <= 20,
    ensures
        final(buf)@ == old(buf)@ + padded_digits(v as nat, d as nat),
{
    let mut tmp: Vec<u8> = Vec::new();
    let mut k: u32 = 0;
    let mut f: u64 = v;
    let ghost pw: nat = 1;
    while k < d
        invariant
            k <= d,
            d <= 20,
            pw == pow10(k as nat),
            f as nat == v as nat / pw,
            tmp@.len() == k,
            padded_digits(v as nat, d as nat) == padded_digits(f as nat, (d - k) as nat) + tmp@.reverse(),
        decreases d - k,
    {
        proof {
            assert(padded_digits(f as nat, (d - k) as nat) == padded_digits(f as nat / 10, (d - k - 1) as nat).push(
                digit_char(f as nat % 10),
            ));
            assert(tmp@.push((48 + f % 10) as u8).reverse() =~= seq![digit_char(f as nat % 10)] + tmp@.reverse());
            lemma_pow10_pos(k as nat);
            assert((v as nat / pw) / 10 == v as nat / (pw * 10)) by (nonlinear_arith)
                requires
                    pw >= 1,
            ;
        }
        tmp.push((48 + f % 10) as u8);
        f = f / 10;
        k += 1;
        proof {
            pw = pw * 10;
            assert(pow10(k as nat) == 10 * pow10((k - 1) as nat));
            assert(pw == pow10(k as nat)) by (nonlinear_arith)
                requires
                    pw == (pw / 10) * 10,
                    pw / 10 == pow10((k - 1) as nat),
                    pow10(k as nat) == 10 * pow10((k - 1) as nat),
            ;
        }
    }
    assert(padded_digits(f as nat, 0) =~= Seq::<u8>::empty());
    let mut i: usize = tmp.len();
    let ghost b0 = buf@;
    while i > 0
        invariant
            i <= tmp@.len(),
            buf@ == b0 + tmp@.reverse().subrange(0, tmp@.len() - i),
        decreases i,
    {
        i -= 1;
        buf.push(tmp[i]);
        assert(buf@ =~= b0 + tmp@.reverse().subrange(0, tmp@.len() - i));
    }
    assert(tmp@.reverse().subrange(0, tmp@.len() as int) =~= tmp@.reverse());
    assert(padded_digits(v as nat, d as nat) =~= tmp@.reverse());
}

/// Appends the decimal text of `val`.
pub(crate) fn push_u64_text(v: &mut Vec<u8>, val: u64)
    ensures
        final(v)@ == old(v)@ + dec_digits(val as nat),
{
    let mut buf: Vec<u8> = vec![0u8; 20];
    let n = {
        let s = buf.as_mut_slice();
        write_u64_fast(s, val)
    };
    let mut i: usize = 0;
    while i < n
        invariant
            n == dec_digits(val as nat).len(),
            buf@.len() == 20,
            n <= 20,
            buf@.subrange(0, n as int) == dec_digits(val as nat),
            i <= n,
            v@ == old(v)@ + dec_digits(val as nat).subrange(0, i as int),
        decreases n - i,
    {
        assert(buf@[i as int] == buf@.subrange(0, n as int)[i as int]);
        v.push(buf[i]);
        i += 1;
        assert(v@ =~= old(v)@ + dec_digits(val as nat).subrange(0, i as int));
    }
    assert(dec_digits(val as nat).subrange(0, n as int) =~= dec_digits(val as nat));
}

/// 10 to the power `e`.
fn pow10_u64(e: u32) -> (r: u64)
    requires
        e <= 19,
    ensures
        r as nat == pow10(e as nat),
{
    let mut r: u64 = 1;
    let mut k: u32 = 0;
    while k < e
        invariant
            k <= e,
            e <= 19,
            r as nat == pow10(k as nat),
            r <= 10000000000000000000u64,
        decreases e - k,
    {
        proof {
            reveal_with_fuel(pow10, 20);
            lemma_pow10_monotone(k as nat, 18);
            assert(pow10(18) == 1000000000000000000nat);
        }
        r = r * 10;
        k += 1;
    }
    r
}

proof fn lemma_pow10_monotone(a: nat, b: nat)
    requires
        a <= b,
    ensures
        pow10(a) <= pow10(b),
    decreases b,
{
    if a < b {
        lemma_pow10_monotone(a, (b - 1) as nat);
        lemma_pow10_pos((b - 1) as nat);
    }
}

/// Writes the fixed-notation `%.6g` text of a value already scaled and
/// rounded to the integer `rounded` with `frac_digits` digits after the
/// point: the integer part, then the fraction without trailing zeros.
fn render_g6_fixed(buf: &mut Vec<u8>, rounded: u64, frac_digits: u32)
    requires
        frac_digits <= 19,
    ensures
        final(buf)@ == old(buf)@ + g6_fixed_text(rounded as nat, frac_digits as nat),
{
    let divisor = pow10_u64(frac_digits);
    proof {
        lemma_pow10_pos(frac_digits as nat);
    }
    let int_part = rounded / divisor;
    let frac_part = rounded % divisor;
    push_u64_text(buf, int_part);
    push_fraction(buf, frac_part, frac_digits);
    assert(buf@ =~= old(buf)@ + g6_fixed_text(rounded as nat, frac_digits as nat));
}

/// The `%.6g` text of a positive value with decimal exponent `exp10`
/// (`floor(log10)`) whose six significant digits round to `rounded`, i.e.
/// `rounded` is the value times 10^(5 - exp10), rounded.  The exponent of
/// the rounded value decides the notation, as C's `%g` does: fixed when it
/// lies in [-4, 6), exponential otherwise; a rounding that carries into the
/// next power of ten raises that exponent by one.
pub open spec fn g6_text(rounded: nat, exp10: int) -> Seq<u8> {
    let carried = rounded >= 1000000;
    let x = if carried {
        exp10 + 1
    } else {
        exp10
    };
    if -4 <= x < 6 {
        g6_fixed_text(
            if carried {
                rounded / 10
            } else {
                rounded
            },
            (5 - x) as nat,
        )
    } else {
        g6_exp_text(rounded, exp10)
    }
}

/// Writes the `%.6g` text of a positive value given its decimal exponent
/// and its six significant digits rounded to an integer (see `g6_text`).
pub fn render_g6(buf: &mut Vec<u8>, rounded: u64, exp10: i32)
    requires
        rounded < 10000000,
        -100000 <= exp10 <= 100000,
    ensures
        final(buf)@ == old(buf)@ + g6_text(rounded as nat, exp10 as int),
{
    let carried = rounded >= 1000000;
    let x = if carried {
        exp10 + 1
    } else {
        exp10
    };
    if -4 <= x && x < 6 {
        let digits = if carried {
            rounded / 10
        } else {
            rounded
        };
        render_g6_fixed(buf, digits, (5 - x) as u32);
    } else {
        render_g6_exp(buf, rounded, exp10);
    }
}

/// Appends a point and the digits of a `digits`-digit fraction without its
/// trailing zeros, or nothing when none remain.
fn push_fraction(buf: &mut Vec<u8>, frac: u64, digits: u32)
    requires
        digits <= 19,
    ensures
        final(buf)@ == old(buf)@ + fraction_text(frac as nat, digits as nat),
{
    let (f, d) = strip_trailing_zeros(frac, digits);
    proof {
        lemma_stripped_bound(frac as nat, digits as nat);
    }
    if d > 0 {
        buf.push(46u8);
        push_padded(buf, f, d);
    }
    assert(buf@ =~= old(buf)@ + fraction_text(frac as nat, digits as nat));
}

/// Appends an exponent: `e`, its sign, and at least two digits.
fn push_exponent(buf: &mut Vec<u8>, e: i32)
    requires
        e > i32::MIN,
    ensures
        final(buf)@ == old(buf)@ + exponent_text(e as int),
{
    buf.push(101u8);
    let m: u64;
    if e < 0 {
        buf.push(45u8);
        m = (-e) as u64;
    } else {
        buf.push(43u8);
        m = e as u64;
    }
    if m < 10 {
        buf.push(48u8);
        buf.push((48 + m) as u8);
    } else {
        push_u64_text(buf, m);
    }
    assert(buf@ =~= old(buf)@ + exponent_text(e as int));
}

/// Writes the exponential-notation `%.6g` text of a value whose
/// significand, scaled by 10^5, rounded to `rounded`, with decimal
/// exponent `exp10`: one digit, the fraction without trailing zeros, and
/// an exponent with explicit sign and at least two digits.  A mantissa that
/// rounding carried to seven digits moves the exponent up by one.
fn render_g6_exp(buf: &mut Vec<u8>, rounded: u64, exp10: i32)
    requires
        rounded < 10000000,
        -100000 <= exp10 <= 100000,
    ensures
        final(buf)@ == old(buf)@ + g6_exp_text(rounded as nat, exp10 as int),
{
    let mut r = rounded;
    let mut e = exp10;
    if r >= 1000000 {
        r = r / 10;
        e = e + 1;
    }
    let ghost b0 = buf@;
    buf.push((48 + r / 100000) as u8);
    push_fraction(buf, r % 100000, 5);
    push_exponent(buf, e);
    assert(buf@ =~= b0 + g6_exp_text(rounded as nat, exp10 as int));
}

/// Reading back what the decimal formatter writes for a natural number gives
/// that number again.
pub proof fn lemma_parse_dec_digits(n: nat)
    ensures
        parse_digits(dec_digits(n)) == n,
    decreases n,
{
    if n >= 10 {
        lemma_parse_dec_digits(n / 10);
        assert(dec_digits(n).drop_last() == dec_digits(n / 10));
        assert(dec_digits(n).last() == digit_char(n % 10));
        assert(n == (n / 10) * 10 + n % 10) by (nonlinear_arith);
    } else {
        assert(seq![digit_char(n)].drop_last() =~= Seq::<u8>::empty());
        assert(parse_digits(Seq::<u8>::empty()) == 0);
    }
}

/// Decimal formatting round-trips: parsing the text written for any signed
/// 32-bit value, or any unsigned 64-bit value, gives that value back.
pub proof fn lemma_decimal_round_trip(i: i32, u: u64)
    ensures
        parse_signed(dec_signed(i as int)) == i as int,
        parse_signed(dec_digits(u as nat)) == u as int,
{
    lemma_parse_dec_digits(u as nat);
    lemma_dec_digits_shape(u as nat);
    assert(dec_digits(u as nat)[0] != 45u8);
    if i < 0 {
        let m = (-i) as nat;
        lemma_parse_dec_digits(m);
        assert((seq![45u8] + dec_digits(m)).subrange(1, (seq![45u8] + dec_digits(m)).len() as int) =~= dec_digits(m));
    } else {
        lemma_parse_dec_digits(i as nat);
        lemma_dec_digits_shape(i as nat);
        assert(dec_digits(i as nat)[0] != 45u8);
    }
}

} // verus!
