//! Decimal text of integers and of fixed-point values with five decimals,
//! as FIX carries them (`"34"`, `"1.08345"`).

use vstd::prelude::*;

verus! {

/// Units per whole: prices and volumes carry five decimals.
pub const FIXED_SCALE: i64 = 100000;

/// Largest magnitude of an `i64`: 2^63.
const MAGNITUDE_LIMIT: u128 = 0x8000_0000_0000_0000;

/// Exponents above this (2^66) move the decimal point past any text that
/// fits in memory.
const EXPONENT_LIMIT: u128 = 0x4_0000_0000_0000_0000;

pub open spec fn is_digit(b: u8) -> bool {
    48 <= b <= 57
}

pub open spec fn all_digits(s: Seq<u8>) -> bool {
    forall|i: int| 0 <= i < s.len() ==> is_digit(#[trigger] s[i])
}

/// The number that a run of ASCII digits spells.
pub open spec fn digits_value(s: Seq<u8>) -> nat
    decreases s.len(),
{
    if s.len() == 0 {
        0
    } else {
        digits_value(s.drop_last()) * 10 + (s.last() - 48) as nat
    }
}

/// Decimal text of `n`, without leading zeros.
pub open spec fn decimal_bytes(n: nat) -> Seq<u8>
    decreases n,
{
    if n < 10 {
        seq![(n + 48) as u8]
    } else {
        decimal_bytes(n / 10).push((n % 10 + 48) as u8)
    }
}

/// The five decimals of `r` (below 100000), zero-padded.
pub open spec fn fraction_bytes(r: nat) -> Seq<u8> {
    seq![
        (r / 10000 % 10 + 48) as u8,
        (r / 1000 % 10 + 48) as u8,
        (r / 100 % 10 + 48) as u8,
        (r / 10 % 10 + 48) as u8,
        (r % 10 + 48) as u8,
    ]
}

/// Text of a non-negative fixed-point value: whole part, '.', five decimals.
pub open spec fn unsigned_fixed_bytes(m: nat) -> Seq<u8> {
    decimal_bytes(m / 100000) + seq![46u8] + fraction_bytes(m % 100000)
}

/// Text of a fixed-point value with five decimals, '-' first when negative.
pub open spec fn fixed_bytes(v: int) -> Seq<u8> {
    if v < 0 {
        seq![45u8] + unsigned_fixed_bytes((-v) as nat)
    } else {
        unsigned_fixed_bytes(v as nat)
    }
}

/// Length of the run of digits that `s` starts with.
pub open spec fn digit_prefix_len(s: Seq<u8>) -> nat
    decreases s.len(),
{
    if s.len() > 0 && is_digit(s[0]) {
        1 + digit_prefix_len(s.drop_first())
    } else {
        0
    }
}

/// The digits ahead of the decimal point once the point of the integer
/// that `d` spells moves `shift` places to the right (to the left when
/// `shift` is negative): zeros come in at the end, or the last digits drop
/// out.
pub open spec fn shifted_digits(d: Seq<u8>, shift: int) -> Seq<u8> {
    if shift >= 0 {
        d + Seq::new(shift as nat, |i: int| 48u8)
    } else if d.len() + shift >= 0 {
        d.take(d.len() + shift)
    } else {
        Seq::empty()
    }
}

/// The exponent that ends a decimal text: 0 for no text at all; for 'e' or
/// 'E', an optional sign and one or more digits, the signed number they
/// spell; `None` for any other text.
pub open spec fn exponent_spec(t: Seq<u8>) -> Option<int> {
    if t.len() == 0 {
        Some(0)
    } else if t[0] == 101 || t[0] == 69 {
        let r = t.drop_first();
        let signed = r.len() > 0 && (r[0] == 45 || r[0] == 43);
        let ds = if signed { r.drop_first() } else { r };
        if ds.len() > 0 && all_digits(ds) {
            Some(if signed && r[0] == 45 { -digits_value(ds) } else { digits_value(ds) as int })
        } else {
            None
        }
    } else {
        None
    }
}

/// The parts of a decimal number written as `str::parse::<f64>` reads one
/// (an optional sign; digits with at most one '.' among or after them, at
/// least one digit in all; an optional exponent, see `exponent_spec`):
/// whether a '-' leads, its digits without the point, and how many places
/// the point moves to count in units of the fifth decimal (the exponent,
/// less the digits after the point, plus five). `None` for any other text.
pub open spec fn decimal_parts(s: Seq<u8>) -> Option<(bool, Seq<u8>, int)> {
    let signed = s.len() > 0 && (s[0] == 45 || s[0] == 43);
    let body = if signed { s.drop_first() } else { s };
    let k = digit_prefix_len(body);
    let rest = body.skip(k as int);
    let has_dot = rest.len() > 0 && rest[0] == 46;
    let after = if has_dot { rest.drop_first() } else { rest };
    let f = if has_dot { digit_prefix_len(after) } else { 0 };
    let mantissa = body.take(k as int) + after.take(f as int);
    match exponent_spec(after.skip(f as int)) {
        None => None,
        Some(e) => if k + f > 0 {
            Some((signed && s[0] == 45, mantissa, e - f + 5))
        } else {
            None
        },
    }
}

/// The fixed-point value (five decimals, further decimals dropped, that is,
/// rounded toward zero) of a decimal number (see `decimal_parts`); `None`
/// for any other text or a value outside `i64`.
pub open spec fn parse_fixed_spec(s: Seq<u8>) -> Option<int> {
    match decimal_parts(s) {
        None => None,
        Some((negative, mantissa, shift)) => {
            let magnitude = digits_value(shifted_digits(mantissa, shift));
            let value = if negative { -magnitude } else { magnitude as int };
            if i64::MIN <= value <= i64::MAX {
                Some(value)
            } else {
                None
            }
        },
    }
}

/// The digits that moving the point `shift` places drops from `d`: none
/// when it moves right, else the last `-shift` of them (all, when fewer).
pub open spec fn dropped_digits(d: Seq<u8>, shift: int) -> Seq<u8> {
    if shift >= 0 {
        Seq::empty()
    } else if d.len() + shift >= 0 {
        d.skip(d.len() + shift)
    } else {
        d
    }
}

pub open spec fn all_zeros(s: Seq<u8>) -> bool {
    forall|i: int| 0 <= i < s.len() ==> #[trigger] s[i] == 48
}

/// The value of `parse_fixed_spec` when it is exact, that is, when every
/// dropped digit is '0'; `None` otherwise.
pub open spec fn parse_exact_fixed_spec(s: Seq<u8>) -> Option<int> {
    match decimal_parts(s) {
        None => None,
        Some((negative, mantissa, shift)) => if all_zeros(dropped_digits(mantissa, shift)) {
            parse_fixed_spec(s)
        } else {
            None
        },
    }
}

/// Ten to the power `k`.
pub open spec fn pow10(k: nat) -> nat
    decreases k,
{
    if k == 0 {
        1
    } else {
        10 * pow10((k - 1) as nat)
    }
}

/// Decimal text of `n`.
pub fn format_decimal(n: u64) -> (out: Vec<u8>)
    ensures
        out@ == decimal_bytes(n as nat),
    decreases n,
{
    if n < 10 {
        let mut out = Vec::new();
        out.push((n + 48) as u8);
        out
    } else {
        let mut out = format_decimal(n / 10);
        out.push((n % 10 + 48) as u8);
        out
    }
}

/// Text of the fixed-point value `v` with five decimals (`{:.5}` of the
/// value it stands for).
pub fn format_fixed(v: i64) -> (out: Vec<u8>)
    ensures
        out@ == fixed_bytes(v as int),
{
    let magnitude: u64 = if v < 0 { (-(v as i128)) as u64 } else { v as u64 };
    let mut out: Vec<u8> = Vec::new();
    if v < 0 {
        out.push(45u8);
    }
    let whole = format_decimal(magnitude / 100000);
    let mut i: usize = 0;
    let ghost start = out@;
    while i < whole.len()
        invariant
            i <= whole.len(),
            out@ == start + whole@.take(i as int),
        decreases whole.len() - i,
    {
        out.push(whole[i]);
        assert(whole@.take(i + 1) =~= whole@.take(i as int).push(whole@[i as int]));
        i += 1;
    }
    assert(whole@.take(whole.len() as int) =~= whole@);
    let r = magnitude % 100000;
    out.push(46u8);
    out.push((r / 10000 % 10 + 48) as u8);
    out.push((r / 1000 % 10 + 48) as u8);
    out.push((r / 100 % 10 + 48) as u8);
    out.push((r / 10 % 10 + 48) as u8);
    out.push((r % 10 + 48) as u8);
    assert(out@ =~= fixed_bytes(v as int));
    out
}

proof fn lemma_digits_value_bound(s: Seq<u8>, t: Seq<u8>)
    requires
        all_digits(s + t),
    ensures
        digits_value(s) <= digits_value(s + t),
    decreases t.len(),
{
    if t.len() > 0 {
        assert((s + t).drop_last() =~= s + t.drop_last());
        lemma_digits_value_bound(s, t.drop_last());
    }
}

proof fn lemma_digit_prefix_len(s: Seq<u8>, k: int)
    requires
        0 <= k <= s.len(),
        all_digits(s.take(k)),
        k == s.len() || !is_digit(s[k]),
    ensures
        digit_prefix_len(s) == k,
    decreases k,
{
    if k > 0 {
        assert(s.take(k)[0] == s[0]);
        let t = s.drop_first();
        assert forall|i: int| 0 <= i < k - 1 implies is_digit(#[trigger] t.take(k - 1)[i]) by {
            assert(t.take(k - 1)[i] == s.take(k)[i + 1]);
        }
        if k < s.len() {
            assert(t[k - 1] == s[k]);
        }
        lemma_digit_prefix_len(t, k - 1);
    }
}

/// End of the run of digits at `start`.
fn digit_run_end(s: &[u8], start: usize) -> (end: usize)
    requires
        start <= s@.len(),
    ensures
        end == start + digit_prefix_len(s@.skip(start as int)),
        end <= s@.len(),
        all_digits(s@.subrange(start as int, end as int)),
{
    let n = s.len();
    let mut i = start;
    while i < n && 48 <= s[i] && s[i] <= 57
        invariant
            start <= i <= n,
            n == s@.len(),
            all_digits(s@.subrange(start as int, i as int)),
        decreases n - i,
    {
        assert forall|j: int| 0 <= j < i + 1 - start implies is_digit(
            #[trigger] s@.subrange(start as int, i + 1)[j],
        ) by {
            if j < i - start {
                assert(s@.subrange(start as int, i + 1)[j] == s@.subrange(start as int, i as int)[j]);
            }
        }
        i += 1;
    }
    proof {
        let t = s@.skip(start as int);
        assert(t.take((i - start) as int) =~= s@.subrange(start as int, i as int));
        if i < n {
            assert(t[(i - start) as int] == s@[i as int]);
        }
        lemma_digit_prefix_len(t, (i - start) as int);
    }
    i
}

/// `(negative, m)` reads the exponent `e`: its sign, and its size, exactly
/// when that is at most `EXPONENT_LIMIT`.
spec fn exponent_reading(e: int, negative: bool, m: u128) -> bool {
    &&& negative ==> e <= 0
    &&& !negative ==> e >= 0
    &&& m <= EXPONENT_LIMIT ==> e == (if negative { -(m as int) } else { m as int })
    &&& m > EXPONENT_LIMIT ==> (if negative { e < -(EXPONENT_LIMIT as int) } else { e > EXPONENT_LIMIT as int })
}

/// Reads the exponent that `s[pos..]` holds (see `exponent_spec`).
#[verifier::loop_isolation(false)]
fn read_exponent(s: &[u8], pos: usize) -> (res: Option<(bool, u128)>)
    requires
        pos <= s@.len(),
    ensures
        match exponent_spec(s@.skip(pos as int)) {
            None => res is None,
            Some(e) => res matches Some(p) && exponent_reading(e, p.0, p.1),
        },
{
    let n = s.len();
    let ghost t = s@.skip(pos as int);
    if pos == n {
        return Some((false, 0));
    }
    assert(t[0] == s@[pos as int]);
    if !(s[pos] == 101 || s[pos] == 69) {
        return None;
    }
    let ghost r = t.drop_first();
    assert(r =~= s@.skip(pos + 1));
    let mut i = pos + 1;
    let mut negative = false;
    if i < n && (s[i] == 45 || s[i] == 43) {
        assert(r[0] == s@[i as int]);
        negative = s[i] == 45;
        i = i + 1;
    }
    let ds_start = i;
    let ghost signed = r.len() > 0 && (r[0] == 45 || r[0] == 43);
    let ghost ds = if signed { r.drop_first() } else { r };
    assert(ds =~= s@.skip(ds_start as int));
    if i == n {
        return None;
    }
    let mut m: u128 = 0;
    while i < n
        invariant
            ds_start <= i <= n,
            n == s@.len(),
            ds == s@.skip(ds_start as int),
            all_digits(s@.subrange(ds_start as int, i as int)),
            digits_value(s@.subrange(ds_start as int, i as int)) <= EXPONENT_LIMIT ==> m == digits_value(
                s@.subrange(ds_start as int, i as int),
            ),
            digits_value(s@.subrange(ds_start as int, i as int)) > EXPONENT_LIMIT ==> m > EXPONENT_LIMIT,
            m <= EXPONENT_LIMIT * 10 + 9,
        decreases n - i,
    {
        if s[i] < 48 || s[i] > 57 {
            assert(!all_digits(ds)) by {
                assert(ds[i - ds_start] == s@[i as int]);
            }
            return None;
        }
        let ghost prev = s@.subrange(ds_start as int, i as int);
        assert(s@.subrange(ds_start as int, i + 1) =~= prev.push(s@[i as int]));
        proof {
            lemma_digits_value_push(prev, s@[i as int]);
        }
        assert forall|j: int| 0 <= j < i + 1 - ds_start implies is_digit(
            #[trigger] s@.subrange(ds_start as int, i + 1)[j],
        ) by {
            if j < i - ds_start {
                assert(s@.subrange(ds_start as int, i + 1)[j] == prev[j]);
            }
        }
        if m <= EXPONENT_LIMIT {
            m = m * 10 + (s[i] - 48) as u128;
        }
        i += 1;
    }
    assert(s@.subrange(ds_start as int, n as int) =~= ds);
    Some((negative, m))
}

/// The first `take` digits of `s[a..b]` followed by `s[c..d]`: their value,
/// and whether that is above `MAGNITUDE_LIMIT` (the value is then not kept).
fn mantissa_prefix(s: &[u8], a: usize, b: usize, c: usize, d: usize, take: usize) -> (res: (u128, bool))
    requires
        a <= b <= c <= d <= s@.len(),
        take <= (b - a) + (d - c),
        all_digits(s@.subrange(a as int, b as int) + s@.subrange(c as int, d as int)),
    ensures
        res.1 <==> digits_value(
            (s@.subrange(a as int, b as int) + s@.subrange(c as int, d as int)).take(take as int),
        ) > MAGNITUDE_LIMIT,
        !res.1 ==> res.0 == digits_value(
            (s@.subrange(a as int, b as int) + s@.subrange(c as int, d as int)).take(take as int),
        ),
{
    let ghost dd = s@.subrange(a as int, b as int) + s@.subrange(c as int, d as int);
    let first = b - a;
    let mut i: usize = 0;
    let mut w: u128 = 0;
    let mut big = false;
    assert(dd.take(0) =~= Seq::<u8>::empty());
    while i < take
        invariant
            i <= take,
            take <= dd.len(),
            first == b - a,
            a <= b <= c <= d <= s@.len(),
            dd == s@.subrange(a as int, b as int) + s@.subrange(c as int, d as int),
            all_digits(dd),
            big <==> digits_value(dd.take(i as int)) > MAGNITUDE_LIMIT,
            !big ==> w == digits_value(dd.take(i as int)),
            w <= MAGNITUDE_LIMIT,
        decreases take - i,
    {
        let byte = if i < first {
            s[a + i]
        } else {
            s[c + (i - first)]
        };
        assert(byte == dd[i as int]);
        assert(is_digit(dd[i as int]));
        assert(dd.take(i + 1) =~= dd.take(i as int).push(byte));
        proof {
            lemma_digits_value_push(dd.take(i as int), byte);
        }
        if !big {
            let next = w * 10 + (byte - 48) as u128;
            if next > MAGNITUDE_LIMIT {
                big = true;
            } else {
                w = next;
            }
        }
        i += 1;
    }
    (w, big)
}

/// `w` times ten to the power `shift`, when that is at most
/// `MAGNITUDE_LIMIT`.
fn scale_up(w: u128, shift: i128) -> (res: Option<u128>)
    requires
        w <= MAGNITUDE_LIMIT,
        shift >= 0,
    ensures
        match res {
            Some(v) => v == w * pow10(shift as nat) && v <= MAGNITUDE_LIMIT,
            None => w * pow10(shift as nat) > MAGNITUDE_LIMIT,
        },
{
    let mut mag: u128 = w;
    let mut z: i128 = 0;
    assert(pow10(0) == 1);
    assert(w * 1 == w);
    while z < shift && mag != 0 && mag <= MAGNITUDE_LIMIT
        invariant
            0 <= z <= shift,
            mag == w * pow10(z as nat),
            mag <= MAGNITUDE_LIMIT * 10,
        decreases shift - z,
    {
        proof {
            assert(w * pow10((z + 1) as nat) == w * pow10(z as nat) * 10) by (nonlinear_arith)
                requires
                    pow10((z + 1) as nat) == 10 * pow10(z as nat),
            ;
        }
        mag = mag * 10;
        z += 1;
    }
    proof {
        lemma_pow10_positive(z as nat);
        lemma_pow10_monotone(z as nat, shift as nat);
        if mag == 0 {
            assert(w == 0) by (nonlinear_arith)
                requires
                    0 == w * pow10(z as nat),
                    pow10(z as nat) >= 1,
            ;
            assert(w * pow10(shift as nat) == 0);
        } else if mag > MAGNITUDE_LIMIT {
            assert(w * pow10(z as nat) <= w * pow10(shift as nat)) by (nonlinear_arith)
                requires
                    pow10(z as nat) <= pow10(shift as nat),
            ;
        }
    }
    if mag > MAGNITUDE_LIMIT {
        None
    } else {
        Some(mag)
    }
}

/// The magnitude, in units of the fifth decimal, of the mantissa digits
/// `s[a..b]` then `s[c..d]` (of which `d - c` follow the point) with the
/// exponent `e`, read as `(neg_e, m)`; `None` when it is above
/// `MAGNITUDE_LIMIT`.
fn scaled_magnitude(
    s: &[u8],
    a: usize,
    b: usize,
    c: usize,
    d: usize,
    neg_e: bool,
    m: u128,
    Ghost(e): Ghost<int>,
) -> (res: Option<u128>)
    requires
        a <= b <= c <= d <= s@.len(),
        all_digits(s@.subrange(a as int, b as int) + s@.subrange(c as int, d as int)),
        exponent_reading(e, neg_e, m),
    ensures
        ({
            let mant = s@.subrange(a as int, b as int) + s@.subrange(c as int, d as int);
            let v = digits_value(shifted_digits(mant, e - (d - c) + 5));
            match res {
                Some(r) => r == v && r <= MAGNITUDE_LIMIT,
                None => v > MAGNITUDE_LIMIT,
            }
        }),
{
    let ghost mant = s@.subrange(a as int, b as int) + s@.subrange(c as int, d as int);
    let ghost shift = e - (d - c) + 5;
    let total = (b - a) + (d - c);
    let n = s.len();
    assert(mant.len() == total);
    assert(total <= n <= usize::MAX);
    if m > EXPONENT_LIMIT {
        if neg_e {
            assert(mant.len() + shift < 0);
            assert(shifted_digits(mant, shift) =~= Seq::<u8>::empty());
            assert(digits_value(Seq::<u8>::empty()) == 0);
            return Some(0);
        }
        let (w, big) = mantissa_prefix(s, a, b, c, d, total);
        assert(mant.take(total as int) =~= mant);
        proof {
            lemma_digits_zeros(mant, shift as nat);
        }
        assert(shift > 20);
        assert(shifted_digits(mant, shift) == mant + Seq::new(shift as nat, |i: int| 48u8));
        if !big && w == 0 {
            assert(digits_value(mant.take(total as int)) == 0);
            assert(digits_value(mant) == 0);
            assert(digits_value(mant) * pow10(shift as nat) == 0) by (nonlinear_arith)
                requires
                    digits_value(mant) == 0,
            ;
            return Some(0);
        }
        proof {
            lemma_pow10_monotone(20, shift as nat);
            lemma_pow10_twenty();
            lemma_at_least_power(digits_value(mant), pow10(shift as nat));
        }
        return None;
    }
    let e_val: i128 = if neg_e { -(m as i128) } else { m as i128 };
    let shift_val: i128 = e_val - (d - c) as i128 + 5;
    let l: i128 = total as i128 + shift_val;
    let take: usize = if l <= 0 {
        0
    } else if l >= total as i128 {
        total
    } else {
        l as usize
    };
    let (w, big) = mantissa_prefix(s, a, b, c, d, take);
    let ghost kept = mant.take(take as int);
    proof {
        if shift < 0 {
            if l <= 0 {
                assert(kept =~= Seq::<u8>::empty());
                assert(shifted_digits(mant, shift) =~= Seq::<u8>::empty());
            }
        } else {
            assert(kept =~= mant);
            lemma_digits_zeros(mant, shift as nat);
            lemma_pow10_positive(shift as nat);
            lemma_at_least_power(digits_value(mant), pow10(shift as nat));
        }
    }
    if big {
        return None;
    }
    if shift_val > 0 {
        scale_up(w, shift_val)
    } else {
        proof {
            if shift == 0 {
                assert(pow10(0) == 1);
            }
        }
        Some(w)
    }
}

/// Where the parts of a decimal number (see `decimal_parts`) stand in `s`:
/// the sign; the digits before the point in `s[p.1..p.2]` and those after
/// it in `s[p.3..p.4]`; the exponent, read as `(p.5, p.6)`.
spec fn parts_located(
    s: Seq<u8>,
    parts: (bool, Seq<u8>, int),
    p: (bool, usize, usize, usize, usize, bool, u128),
) -> bool {
    &&& p.0 == parts.0
    &&& p.1 <= p.2 <= p.3 <= p.4 <= s.len()
    &&& parts.1 == s.subrange(p.1 as int, p.2 as int) + s.subrange(p.3 as int, p.4 as int)
    &&& all_digits(parts.1)
    &&& exists|e: int| #[trigger] exponent_reading(e, p.5, p.6) && parts.2 == e - (p.4 - p.3) + 5
}

/// Finds the parts of the decimal number that `s` holds (see
/// `decimal_parts`).
#[verifier::rlimit(50)]
fn read_parts(s: &[u8]) -> (r: Option<(bool, usize, usize, usize, usize, bool, u128)>)
    ensures
        match decimal_parts(s@) {
            None => r is None,
            Some(parts) => r matches Some(p) && parts_located(s@, parts, p),
        },
{
    let n = s.len();
    let mut start: usize = 0;
    let mut negative = false;
    if n > 0 && (s[0] == 45 || s[0] == 43) {
        negative = s[0] == 45;
        start = 1;
    }
    let ghost signed = n > 0 && (s@[0] == 45 || s@[0] == 43);
    let ghost body = if signed { s@.drop_first() } else { s@ };
    assert(body =~= s@.skip(start as int));
    let int_end = digit_run_end(s, start);
    let ghost k = int_end - start;
    let ghost rest = body.skip(k);
    assert(rest =~= s@.skip(int_end as int));
    assert(body.take(k) =~= s@.subrange(start as int, int_end as int));
    let has_dot = int_end < n && s[int_end] == 46;
    proof {
        if int_end < n {
            assert(rest[0] == s@[int_end as int]);
        }
    }
    let frac_start: usize = if has_dot { int_end + 1 } else { int_end };
    let frac_end: usize = if has_dot { digit_run_end(s, frac_start) } else { frac_start };
    let ghost after = if has_dot { rest.drop_first() } else { rest };
    let ghost f = frac_end - frac_start;
    assert(after =~= s@.skip(frac_start as int));
    assert(after.take(f) =~= s@.subrange(frac_start as int, frac_end as int));
    assert(after.skip(f) =~= s@.skip(frac_end as int));
    let ghost mantissa = s@.subrange(start as int, int_end as int) + s@.subrange(
        frac_start as int,
        frac_end as int,
    );
    assert(mantissa == body.take(k) + after.take(f));
    assert(all_digits(mantissa)) by {
        assert forall|j: int| 0 <= j < mantissa.len() implies is_digit(#[trigger] mantissa[j]) by {
            if j < k {
                assert(mantissa[j] == s@.subrange(start as int, int_end as int)[j]);
            } else {
                assert(mantissa[j] == s@.subrange(frac_start as int, frac_end as int)[j - k]);
            }
        }
    }
    let exp = read_exponent(s, frac_end);
    let (neg_e, m) = match exp {
        None => {
            return None;
        },
        Some(p) => p,
    };
    let ghost e = exponent_spec(s@.skip(frac_end as int))->0;
    assert(exponent_reading(e, neg_e, m));
    if int_end == start && frac_end == frac_start {
        return None;
    }
    assert(decimal_parts(s@) == Some((negative, mantissa, e - f + 5)));
    let r = (negative, start, int_end, frac_start, frac_end, neg_e, m);
    assert(r.0 == negative);
    assert(mantissa == s@.subrange(r.1 as int, r.2 as int) + s@.subrange(r.3 as int, r.4 as int));
    assert(e - f + 5 == e - (r.4 - r.3) + 5);
    assert(exponent_reading(e, r.5, r.6));
    assert(parts_located(s@, (negative, mantissa, e - f + 5), r));
    Some(r)
}

/// The fixed-point value a decimal text spells (see `parse_fixed_spec`).
pub fn parse_fixed(s: &[u8]) -> (r: Option<i64>)
    ensures
        match parse_fixed_spec(s@) {
            Some(v) => r == Some(v as i64),
            None => r is None,
        },
{
    let (negative, a, b, c, d, neg_e, m) = match read_parts(s) {
        None => {
            return None;
        },
        Some(p) => p,
    };
    let ghost parts = decimal_parts(s@)->0;
    let ghost e = choose|e: int| #[trigger] exponent_reading(e, neg_e, m) && parts.2 == e - (d - c) + 5;
    let mag = match scaled_magnitude(s, a, b, c, d, neg_e, m, Ghost(e)) {
        None => {
            return None;
        },
        Some(v) => v,
    };
    if negative {
        if mag > MAGNITUDE_LIMIT {
            None
        } else {
            Some((-(mag as i128)) as i64)
        }
    } else {
        if mag > MAGNITUDE_LIMIT - 1 {
            None
        } else {
            Some(mag as i64)
        }
    }
}

/// Whether every digit that moving the point drops from the mantissa
/// `s[a..b]` then `s[c..d]` is '0' (see `dropped_digits`), the exponent `e`
/// read as `(neg_e, m)`.
fn dropped_are_zero(
    s: &[u8],
    a: usize,
    b: usize,
    c: usize,
    d: usize,
    neg_e: bool,
    m: u128,
    Ghost(e): Ghost<int>,
) -> (r: bool)
    requires
        a <= b <= c <= d <= s@.len(),
        exponent_reading(e, neg_e, m),
    ensures
        r == all_zeros(
            dropped_digits(s@.subrange(a as int, b as int) + s@.subrange(c as int, d as int), e - (d - c) + 5),
        ),
{
    let ghost mant = s@.subrange(a as int, b as int) + s@.subrange(c as int, d as int);
    let ghost shift = e - (d - c) + 5;
    let total = (b - a) + (d - c);
    let n = s.len();
    assert(mant.len() == total);
    assert(total <= n <= usize::MAX);
    let from: usize;
    if m > EXPONENT_LIMIT {
        if !neg_e {
            assert(dropped_digits(mant, shift) =~= Seq::<u8>::empty());
            return true;
        }
        assert(mant.len() + shift < 0);
        from = 0;
    } else {
        let e_val: i128 = if neg_e { -(m as i128) } else { m as i128 };
        let shift_val: i128 = e_val - (d - c) as i128 + 5;
        if shift_val >= 0 {
            assert(dropped_digits(mant, shift) =~= Seq::<u8>::empty());
            return true;
        }
        let l: i128 = total as i128 + shift_val;
        from = if l <= 0 { 0 } else { l as usize };
    }
    assert(dropped_digits(mant, shift) =~= mant.skip(from as int));
    let first = b - a;
    let mut i = from;
    while i < total
        invariant
            from <= i <= total,
            total == mant.len(),
            first == b - a,
            a <= b <= c <= d <= s@.len(),
            mant == s@.subrange(a as int, b as int) + s@.subrange(c as int, d as int),
            forall|j: int| from <= j < i ==> #[trigger] mant[j] == 48,
            dropped_digits(mant, shift) == mant.skip(from as int),
            shift == e - (d - c) + 5,
        decreases total - i,
    {
        let byte = if i < first {
            s[a + i]
        } else {
            s[c + (i - first)]
        };
        assert(byte == mant[i as int]);
        if byte != 48 {
            assert(dropped_digits(mant, shift)[i - from] == byte);
            assert(!all_zeros(dropped_digits(mant, shift)));
            return false;
        }
        i += 1;
    }
    assert forall|j: int| 0 <= j < mant.skip(from as int).len() implies #[trigger] mant.skip(from as int)[j] == 48 by {
        assert(mant.skip(from as int)[j] == mant[from + j]);
    }
    true
}

/// The fixed-point value a decimal text spells exactly (see
/// `parse_exact_fixed_spec`).
pub fn parse_exact_fixed(s: &[u8]) -> (r: Option<i64>)
    ensures
        match parse_exact_fixed_spec(s@) {
            Some(v) => r == Some(v as i64),
            None => r is None,
        },
{
    let (negative, a, b, c, d, neg_e, m) = match read_parts(s) {
        None => {
            return None;
        },
        Some(p) => p,
    };
    let ghost parts = decimal_parts(s@)->0;
    let ghost e = choose|e: int| #[trigger] exponent_reading(e, neg_e, m) && parts.2 == e - (d - c) + 5;
    if !dropped_are_zero(s, a, b, c, d, neg_e, m, Ghost(e)) {
        return None;
    }
    parse_fixed(s)
}

proof fn lemma_pow10_positive(k: nat)
    ensures
        pow10(k) >= 1,
    decreases k,
{
    if k > 0 {
        lemma_pow10_positive((k - 1) as nat);
    }
}

proof fn lemma_pow10_monotone(a: nat, b: nat)
    requires
        a <= b,
    ensures
        pow10(a) <= pow10(b),
    decreases b,
{
    if a < b {
        lemma_pow10_monotone(a, (b - 1) as nat);
        lemma_pow10_positive((b - 1) as nat);
    }
}

proof fn lemma_pow10_twenty()
    ensures
        pow10(20) > MAGNITUDE_LIMIT,
{
    reveal_with_fuel(pow10, 21);
    assert(pow10(20) == 100000000000000000000nat);
}

proof fn lemma_at_least_power(v: nat, p: nat)
    requires
        p >= 1,
    ensures
        v > 0 ==> v * p >= p,
        v * p >= v,
{
    assert(v * p >= v) by (nonlinear_arith)
        requires
            p >= 1,
    ;
    assert(v > 0 ==> v * p >= p) by (nonlinear_arith)
        requires
            p >= 1,
    ;
}

/// Appending `k` zeros multiplies by ten to the power `k`.
proof fn lemma_digits_zeros(d: Seq<u8>, k: nat)
    ensures
        digits_value(d + Seq::new(k, |i: int| 48u8)) == digits_value(d) * pow10(k),
    decreases k,
{
    if k == 0 {
        assert(d + Seq::new(k, |i: int| 48u8) =~= d);
        assert(pow10(0) == 1);
        assert(digits_value(d) * 1 == digits_value(d));
    } else {
        assert(pow10(k) == 10 * pow10((k - 1) as nat));
        lemma_digits_zeros(d, (k - 1) as nat);
        let prev = d + Seq::new((k - 1) as nat, |i: int| 48u8);
        assert(d + Seq::new(k, |i: int| 48u8) =~= prev.push(48u8));
        lemma_digits_value_push(prev, 48u8);
        assert(digits_value(d) * pow10((k - 1) as nat) * 10 == digits_value(d) * pow10(k)) by (nonlinear_arith)
            requires
                pow10(k) == 10 * pow10((k - 1) as nat),
        ;
    }
}

/// The number that an unsigned decimal text spells: an optional '+' and
/// one or more digits; `None` for any other text or a value above
/// `u64::MAX`.
pub open spec fn parse_unsigned_spec(s: Seq<u8>) -> Option<nat> {
    let body = if s.len() > 0 && s[0] == 43 { s.drop_first() } else { s };
    if body.len() > 0 && all_digits(body) && digits_value(body) <= u64::MAX {
        Some(digits_value(body))
    } else {
        None
    }
}

/// The number an unsigned decimal text spells (see `parse_unsigned_spec`).
pub fn parse_unsigned(s: &[u8]) -> (r: Option<u64>)
    ensures
        match parse_unsigned_spec(s@) {
            Some(v) => r == Some(v as u64),
            None => r is None,
        },
{
    let n = s.len();
    let start: usize = if n > 0 && s[0] == 43 { 1 } else { 0 };
    let ghost body = if n > 0 && s@[0] == 43 { s@.drop_first() } else { s@ };
    assert(body =~= s@.subrange(start as int, n as int));
    if start == n {
        return None;
    }
    let mut i = start;
    let mut value: u64 = 0;
    let mut too_big = false;
    while i < n
        invariant
            start <= i <= n,
            n == s@.len(),
            body == s@.subrange(start as int, n as int),
            body == (if n > 0 && s@[0] == 43 { s@.drop_first() } else { s@ }),
            all_digits(s@.subrange(start as int, i as int)),
            too_big <==> digits_value(s@.subrange(start as int, i as int)) > u64::MAX,
            !too_big ==> value == digits_value(s@.subrange(start as int, i as int)),
        decreases n - i,
    {
        if s[i] < 48 || s[i] > 57 {
            assert(!all_digits(body)) by {
                assert(body[i - start] == s@[i as int]);
            }
            return None;
        }
        let ghost prev = s@.subrange(start as int, i as int);
        let ghost next = s@.subrange(start as int, i + 1);
        assert(next.drop_last() =~= prev);
        if !too_big {
            let d = (s[i] - 48) as u64;
            if value > (u64::MAX - d) / 10 {
                too_big = true;
            } else {
                value = value * 10 + d;
            }
        } else {
            proof {
                lemma_digits_value_bound(prev, seq![s@[i as int]]);
                assert(prev + seq![s@[i as int]] =~= next);
            }
        }
        i += 1;
    }
    assert(s@.subrange(start as int, n as int) =~= body);
    if too_big {
        None
    } else {
        Some(value)
    }
}

/// The decimal text of `n` is a non-empty run of digits that spells `n`.
pub proof fn lemma_decimal_bytes(n: nat)
    ensures
        decimal_bytes(n).len() > 0,
        all_digits(decimal_bytes(n)),
        digits_value(decimal_bytes(n)) == n,
    decreases n,
{
    if n < 10 {
        let c = (n + 48) as u8;
        assert(c as nat == n + 48);
        assert(decimal_bytes(n) =~= seq![c]);
        assert(decimal_bytes(n).drop_last() =~= Seq::<u8>::empty());
        assert(digits_value(Seq::<u8>::empty()) == 0);
        assert(digits_value(decimal_bytes(n)) == digits_value(Seq::<u8>::empty()) * 10 + (c - 48) as nat);
    } else {
        lemma_decimal_bytes(n / 10);
        let d = decimal_bytes(n / 10);
        let c = (n % 10 + 48) as u8;
        assert(c as nat == n % 10 + 48);
        assert(decimal_bytes(n).drop_last() =~= d);
        assert(decimal_bytes(n).last() == c);
        assert(digits_value(decimal_bytes(n)) == digits_value(d) * 10 + (c - 48) as nat);
        assert((n / 10) * 10 + n % 10 == n);
        assert forall|i: int| 0 <= i < decimal_bytes(n).len() implies is_digit(#[trigger] decimal_bytes(n)[i]) by {
            if i < d.len() {
                assert(decimal_bytes(n)[i] == d[i]);
            }
        }
    }
}

/// Appending a digit multiplies by ten and adds it.
pub proof fn lemma_digits_value_push(s: Seq<u8>, c: u8)
    ensures
        digits_value(s.push(c)) == digits_value(s) * 10 + (c - 48) as nat,
{
    assert(s.push(c).drop_last() =~= s);
}

proof fn lemma_five_digits(r: nat)
    requires
        r < 100000,
    ensures
        (((r / 10000 % 10 * 10 + r / 1000 % 10) * 10 + r / 100 % 10) * 10 + r / 10 % 10) * 10 + r % 10 == r,
{
    assert((((r / 10000 % 10 * 10 + r / 1000 % 10) * 10 + r / 100 % 10) * 10 + r / 10 % 10) * 10 + r % 10 == r)
        by (nonlinear_arith)
        requires
            r < 100000,
    ;
}

/// The five decimals of `r` spell `r`.
pub proof fn lemma_fraction_bytes(r: nat)
    requires
        r < 100000,
    ensures
        fraction_bytes(r).len() == 5,
        all_digits(fraction_bytes(r)),
        digits_value(fraction_bytes(r)) == r,
{
    let a = (r / 10000 % 10 + 48) as u8;
    let b = (r / 1000 % 10 + 48) as u8;
    let c = (r / 100 % 10 + 48) as u8;
    let d = (r / 10 % 10 + 48) as u8;
    let e = (r % 10 + 48) as u8;
    let empty = Seq::<u8>::empty();
    assert(digits_value(empty) == 0);
    lemma_digits_value_push(empty, a);
    lemma_digits_value_push(empty.push(a), b);
    lemma_digits_value_push(empty.push(a).push(b), c);
    lemma_digits_value_push(empty.push(a).push(b).push(c), d);
    lemma_digits_value_push(empty.push(a).push(b).push(c).push(d), e);
    assert(fraction_bytes(r) =~= empty.push(a).push(b).push(c).push(d).push(e));
    lemma_five_digits(r);
}

/// What `format_decimal` writes, `parse_unsigned` reads back.
pub proof fn lemma_unsigned_roundtrip(n: nat)
    requires
        n <= u64::MAX,
    ensures
        parse_unsigned_spec(decimal_bytes(n)) == Some(n),
{
    lemma_decimal_bytes(n);
    assert(is_digit(decimal_bytes(n)[0]));
}

/// The value of a run of digits followed by another.
proof fn lemma_digits_value_concat(a: Seq<u8>, b: Seq<u8>)
    ensures
        digits_value(a + b) == digits_value(a) * pow10(b.len()) + digits_value(b),
    decreases b.len(),
{
    if b.len() == 0 {
        assert(a + b =~= a);
        assert(pow10(0) == 1);
        assert(digits_value(a) * 1 == digits_value(a));
    } else {
        let c = b.last();
        lemma_digits_value_concat(a, b.drop_last());
        assert((a + b).drop_last() =~= a + b.drop_last());
        assert((a + b).last() == c);
        let x = digits_value(a);
        let p = pow10((b.len() - 1) as nat);
        let y = digits_value(b.drop_last());
        assert(pow10(b.len()) == 10 * p);
        assert(digits_value(b) == y * 10 + (c - 48) as nat);
        assert(digits_value(a + b) == (x * p + y) * 10 + (c - 48) as nat);
        assert((x * p + y) * 10 + (c - 48) as nat == x * (10 * p) + (y * 10 + (c - 48) as nat))
            by (nonlinear_arith);
    }
}

/// How `parse_fixed_spec` reads the text of a non-negative value: the
/// whole part's digits, '.', five decimals and no exponent, which spell
/// the value.
proof fn lemma_unsigned_fixed_parts(m: nat)
    ensures
        ({
            let u = unsigned_fixed_bytes(m);
            let k = digit_prefix_len(u);
            let rest = u.skip(k as int);
            let after = rest.drop_first();
            let f = digit_prefix_len(after);
            &&& u.len() > 0
            &&& is_digit(u[0])
            &&& k > 0
            &&& rest.len() > 0
            &&& rest[0] == 46
            &&& exponent_spec(after.skip(f as int)) == Some(0int)
            &&& digits_value(shifted_digits(u.take(k as int) + after.take(f as int), 0 - f + 5)) == m
        }),
{
    let d = decimal_bytes(m / 100000);
    let fr = fraction_bytes(m % 100000);
    lemma_decimal_bytes(m / 100000);
    lemma_fraction_bytes(m % 100000);
    let u = unsigned_fixed_bytes(m);
    assert(u == d + seq![46u8] + fr);
    assert(u.take(d.len() as int) =~= d);
    assert(u[d.len() as int] == 46u8);
    assert(u[0] == d[0]);
    lemma_digit_prefix_len(u, d.len() as int);
    assert(u.skip(d.len() as int) =~= seq![46u8] + fr);
    let after = (seq![46u8] + fr).drop_first();
    assert(after =~= fr);
    assert(fr.take(5) =~= fr);
    lemma_digit_prefix_len(fr, 5);
    assert(fr.skip(5) =~= Seq::<u8>::empty());
    assert(shifted_digits(d + fr, 0) =~= d + fr);
    lemma_digits_value_concat(d, fr);
    assert(pow10(5) == 100000) by {
        reveal_with_fuel(pow10, 6);
    }
}

/// What `format_fixed` writes, `parse_fixed` reads back: every `i64`
/// fixed-point value.
pub proof fn lemma_fixed_roundtrip(v: int)
    requires
        i64::MIN <= v <= i64::MAX,
    ensures
        parse_fixed_spec(fixed_bytes(v)) == Some(v),
{
    let m: nat = if v < 0 { (-v) as nat } else { v as nat };
    let u = unsigned_fixed_bytes(m);
    lemma_unsigned_fixed_parts(m);
    if v < 0 {
        assert(fixed_bytes(v).drop_first() =~= u);
    }
}

} // verus!
