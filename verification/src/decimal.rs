//! Decimal numbers as annotation files write them, read exactly to eighteen places.
//!
//! A number is written as an optional sign, digits with an optional point among them,
//! and an optional exponent: `12`, `-0.5`, `.25`, `3.`, `1e-05`, `+2.5E3`. Its value is
//! held in units of 10^-18, cut off towards zero, and its magnitude stops at 2^32.
use crate::text::{all_digits, chars_of, digits_value, is_ascii_digit, is_digit};
use vstd::prelude::*;

verus! {

/// How many units make one: 10^18.
pub const ONE: u128 = 1_000_000_000_000_000_000;

/// The largest magnitude that is held, in units: 2^32 times `ONE`.
pub const LIMIT: u128 = 4_294_967_296_000_000_000_000_000_000;

/// The most that an exponent is read to: 10^30. A written number cannot be long enough
/// for a larger exponent to change what it is.
const EXPONENT_LIMIT: u128 = 1_000_000_000_000_000_000_000_000_000_000;

/// The places kept behind the point.
pub const PLACES: u8 = 18;

/// A number in units of 10^-18, of a magnitude no more than `LIMIT`.
#[derive(Debug, Clone, Copy, PartialEq, Eq, Structural)]
pub struct Decimal {
    units: i128,
}

impl View for Decimal {
    type V = int;

    /// The number, in units.
    closed spec fn view(&self) -> int {
        self.units as int
    }
}

impl Decimal {
    /// The magnitude is no more than `LIMIT`.
    #[verifier::type_invariant]
    spec fn within_limit(self) -> bool {
        -LIMIT <= self.units <= LIMIT
    }

    /// The number of `units` units, or the nearest number that is held.
    pub fn from_units(units: i128) -> (d: Decimal)
        ensures
            d@ == if units < -LIMIT {
                -LIMIT
            } else if units > LIMIT {
                LIMIT as int
            } else {
                units as int
            },
    {
        if units < -(LIMIT as i128) {
            Decimal { units: -(LIMIT as i128) }
        } else if units > LIMIT as i128 {
            Decimal { units: LIMIT as i128 }
        } else {
            Decimal { units }
        }
    }

    /// The number, in units.
    pub fn units(&self) -> (units: i128)
        ensures
            units == self@,
            -LIMIT <= units <= LIMIT,
    {
        proof {
            use_type_invariant(self);
        }
        self.units
    }
}

/// Ten to the power `e`.
pub open spec fn pow10(e: nat) -> nat
    decreases e,
{
    if e == 0 {
        1
    } else {
        10 * pow10((e - 1) as nat)
    }
}

/// The end of the run of digits that starts at `from`: the first place at or after
/// `from` that holds no digit.
pub open spec fn digit_run(s: Seq<char>, from: int) -> int
    decreases s.len() - from,
{
    if 0 <= from < s.len() && is_digit(s[from]) {
        digit_run(s, from + 1)
    } else {
        from
    }
}

/// Whether `c` is a sign.
pub open spec fn is_sign(c: char) -> bool {
    c == '+' || c == '-'
}

/// Whether `c` is the letter that begins an exponent.
pub open spec fn is_exponent_mark(c: char) -> bool {
    c == 'e' || c == 'E'
}

/// Where the parts of a written number lie.
pub struct Layout {
    pub negative: bool,
    pub int_start: int,
    pub int_end: int,
    pub frac_start: int,
    pub frac_end: int,
    pub has_exponent: bool,
    pub exp_negative: bool,
    pub exp_start: int,
    pub exp_end: int,
}

/// The parts of `s`, read from the left: sign, digits, point and digits, exponent.
pub open spec fn layout(s: Seq<char>) -> Layout {
    let int_start: int = if s.len() > 0 && is_sign(s[0]) {
        1
    } else {
        0
    };
    let int_end = digit_run(s, int_start);
    let has_point = int_end < s.len() && s[int_end] == '.';
    let frac_start = if has_point {
        int_end + 1
    } else {
        int_end
    };
    let frac_end = digit_run(s, frac_start);
    let has_exponent = frac_end < s.len() && is_exponent_mark(s[frac_end]);
    let exp_signed = has_exponent && frac_end + 1 < s.len() && is_sign(s[frac_end + 1]);
    let exp_start = if !has_exponent {
        frac_end
    } else if exp_signed {
        frac_end + 2
    } else {
        frac_end + 1
    };
    let exp_end = digit_run(s, exp_start);
    Layout {
        negative: s.len() > 0 && s[0] == '-',
        int_start,
        int_end,
        frac_start,
        frac_end,
        has_exponent,
        exp_negative: exp_signed && s[frac_end + 1] == '-',
        exp_start,
        exp_end,
    }
}

/// Whether `s` writes a number: at least one digit before the exponent, at least one
/// digit in the exponent if there is one, and nothing else.
pub open spec fn is_number(s: Seq<char>) -> bool {
    let l = layout(s);
    &&& (l.int_end - l.int_start) + (l.frac_end - l.frac_start) > 0
    &&& l.has_exponent ==> l.exp_end > l.exp_start
    &&& l.exp_end == s.len()
}

/// The digits of `s` before its exponent, the point left out.
pub open spec fn mantissa(s: Seq<char>) -> Seq<char> {
    let l = layout(s);
    s.subrange(l.int_start, l.int_end) + s.subrange(l.frac_start, l.frac_end)
}

/// The exponent that `s` writes; 0 where it writes none.
pub open spec fn exponent(s: Seq<char>) -> int {
    let l = layout(s);
    let e = digits_value(s.subrange(l.exp_start, l.exp_end));
    if l.exp_negative {
        -e
    } else {
        e as int
    }
}

/// The number written by the first `k` digits of `d`, with noughts added where `d` has
/// fewer than `k`; 0 where `k` is not positive.
pub open spec fn shifted(d: Seq<char>, k: int) -> nat {
    if k <= 0 {
        0
    } else if k <= d.len() {
        digits_value(d.take(k))
    } else {
        digits_value(d) * pow10((k - d.len()) as nat)
    }
}

/// The magnitude of the number that `s` writes, in units, cut off towards zero and stopped
/// at `LIMIT`.
pub open spec fn magnitude(s: Seq<char>) -> nat {
    let l = layout(s);
    let whole = shifted(mantissa(s), (l.int_end - l.int_start) + exponent(s) + PLACES);
    if whole < LIMIT {
        whole
    } else {
        LIMIT as nat
    }
}

/// The number that `s` writes, in units; nothing where `s` writes no number.
pub open spec fn decimal_units(s: Seq<char>) -> Option<int> {
    if !is_number(s) {
        None
    } else if layout(s).negative {
        Some(-(magnitude(s) as int))
    } else {
        Some(magnitude(s) as int)
    }
}

/// A run of digits ends within the text, holds digits only, and ends before what is no
/// digit.
proof fn lemma_digit_run(s: Seq<char>, from: int)
    requires
        0 <= from <= s.len(),
    ensures
        from <= digit_run(s, from) <= s.len(),
        all_digits(s.subrange(from, digit_run(s, from))),
        digit_run(s, from) < s.len() ==> !is_digit(s[digit_run(s, from)]),
    decreases s.len() - from,
{
    if from < s.len() && is_digit(s[from]) {
        lemma_digit_run(s, from + 1);
        let end = digit_run(s, from);
        assert forall|i: int| 0 <= i < end - from implies is_digit(
            #[trigger] s.subrange(from, end)[i],
        ) by {
            if i > 0 {
                assert(s.subrange(from, end)[i] == s.subrange(from + 1, end)[i - 1]);
            }
        }
    }
}

/// The powers of ten go up.
proof fn lemma_pow10_grows(a: nat, b: nat)
    requires
        a <= b,
    ensures
        1 <= pow10(a) <= pow10(b),
    decreases b,
{
    if b == 0 {
    } else if a == b {
        lemma_pow10_grows((a - 1) as nat, (b - 1) as nat);
    } else {
        lemma_pow10_grows(a, (b - 1) as nat);
    }
}

/// Ten to the power 28, which is more than `LIMIT`.
proof fn lemma_pow10_28()
    ensures
        pow10(28) == 10_000_000_000_000_000_000_000_000_000nat,
{
    reveal_with_fuel(pow10, 29);
}

/// Past the limit, and before the first digit, the shift no longer matters.
proof fn lemma_far_shift(d: Seq<char>, k1: int, k2: int)
    requires
        (k1 <= 0 && k2 <= 0) || (k1 >= d.len() + 28 && k2 >= d.len() + 28),
    ensures
        shifted(d, k1) >= LIMIT <==> shifted(d, k2) >= LIMIT,
        shifted(d, k1) < LIMIT ==> shifted(d, k1) == shifted(d, k2),
{
    if k1 > 0 {
        let v = digits_value(d);
        let e1 = (k1 - d.len()) as nat;
        let e2 = (k2 - d.len()) as nat;
        lemma_pow10_28();
        lemma_pow10_grows(28, e1);
        lemma_pow10_grows(28, e2);
        if v > 0 {
            assert(v * pow10(e1) >= pow10(e1)) by (nonlinear_arith)
                requires
                    v >= 1,
            ;
            assert(v * pow10(e2) >= pow10(e2)) by (nonlinear_arith)
                requires
                    v >= 1,
            ;
        } else {
            assert(v * pow10(e1) == 0) by (nonlinear_arith)
                requires
                    v == 0,
            ;
            assert(v * pow10(e2) == 0) by (nonlinear_arith)
                requires
                    v == 0,
            ;
        }
    }
}

/// The end of the run of digits of `t` that starts at `from`.
fn scan_digits(t: &Vec<char>, from: usize) -> (end: usize)
    requires
        from <= t.len(),
    ensures
        end == digit_run(t@, from as int),
        from <= end <= t.len(),
{
    let mut i = from;
    while i < t.len() && is_ascii_digit(t[i])
        invariant
            from <= i <= t.len(),
            digit_run(t@, from as int) == digit_run(t@, i as int),
        decreases t.len() - i,
    {
        i += 1;
    }
    i
}

/// The number that the digits `t[from..to]` write, stopped at `limit`.
fn read_digits(t: &Vec<char>, from: usize, to: usize, limit: u128) -> (v: u128)
    requires
        from <= to <= t.len(),
        all_digits(t@.subrange(from as int, to as int)),
        limit <= EXPONENT_LIMIT,
    ensures
        v == vstd::math::min(
            digits_value(t@.subrange(from as int, to as int)) as int,
            limit as int,
        ),
{
    let ghost d = t@.subrange(from as int, to as int);
    let mut v: u128 = 0;
    let mut i = from;
    while i < to
        invariant
            from <= i <= to <= t.len(),
            d == t@.subrange(from as int, to as int),
            all_digits(d),
            limit <= EXPONENT_LIMIT,
            v == vstd::math::min(digits_value(d.take(i - from)) as int, limit as int),
        decreases to - i,
    {
        let c = t[i];
        proof {
            let next = d.take(i - from + 1);
            assert(next.drop_last() =~= d.take(i - from));
            assert(d[i - from] == c);
        }
        let digit = (c as u32 - '0' as u32) as u128;
        if v >= limit {
            v = limit;
        } else {
            v = v * 10 + digit;
            if v > limit {
                v = limit;
            }
        }
        i += 1;
    }
    assert(d.take(to - from) =~= d);
    v
}

/// The digits before the exponent: `t[a..b]` followed by `t[c..d]`.
fn join_digits(t: &Vec<char>, a: usize, b: usize, c: usize, d: usize) -> (m: Vec<char>)
    requires
        a <= b <= t.len(),
        c <= d <= t.len(),
    ensures
        m@ == t@.subrange(a as int, b as int) + t@.subrange(c as int, d as int),
{
    let mut m: Vec<char> = Vec::new();
    let mut i = a;
    while i < b
        invariant
            a <= i <= b <= t.len(),
            m@ == t@.subrange(a as int, i as int),
        decreases b - i,
    {
        m.push(t[i]);
        i += 1;
    }
    let mut j = c;
    while j < d
        invariant
            c <= j <= d <= t.len(),
            m@ == t@.subrange(a as int, b as int) + t@.subrange(c as int, j as int),
        decreases d - j,
    {
        m.push(t[j]);
        j += 1;
    }
    m
}

/// The first `k` digits of `m` as a number, noughts added, stopped at `LIMIT`.
fn shift_digits(m: &Vec<char>, k: i128) -> (v: u128)
    requires
        all_digits(m@),
    ensures
        v == vstd::math::min(shifted(m@, k as int) as int, LIMIT as int),
{
    if k <= 0 {
        return 0;
    }
    let len = m.len();
    let within = k <= len as i128;
    let n: usize = if within {
        k as usize
    } else {
        len
    };
    let mut v = read_digits(m, 0, n, LIMIT);
    if within {
        return v;
    }
    assert(m@.take(n as int) =~= m@);
    let pad: i128 = k - len as i128;
    let mut j: i128 = 0;
    let ghost whole = digits_value(m@);
    assert(whole * pow10(0) == whole) by (nonlinear_arith)
        requires
            pow10(0) == 1,
    ;
    while j < pad && v != 0 && v < LIMIT
        invariant
            0 <= j <= pad,
            whole == digits_value(m@),
            v == vstd::math::min((whole * pow10(j as nat)) as int, LIMIT as int),
        decreases pad - j,
    {
        proof {
            assert(whole * pow10((j + 1) as nat) == 10 * (whole * pow10(j as nat)))
                by (nonlinear_arith)
                requires
                    pow10((j + 1) as nat) == 10 * pow10(j as nat),
            ;
        }
        v = v * 10;
        if v > LIMIT {
            v = LIMIT;
        }
        j += 1;
    }
    proof {
        let full = whole * pow10(pad as nat);
        if j < pad {
            lemma_pow10_grows(j as nat, pad as nat);
            if v == 0 {
                assert(whole == 0) by (nonlinear_arith)
                    requires
                        whole * pow10(j as nat) == 0,
                        pow10(j as nat) >= 1,
                ;
            } else {
                assert(full >= whole * pow10(j as nat)) by (nonlinear_arith)
                    requires
                        full == whole * pow10(pad as nat),
                        pow10(j as nat) <= pow10(pad as nat),
                ;
            }
        }
    }
    v
}

/// Reads a number. Nothing comes back exactly when `token` writes no number.
pub fn parse_decimal(token: &str) -> (r: Option<Decimal>)
    ensures
        match r {
            Some(d) => decimal_units(token@) == Some(d@),
            None => decimal_units(token@) is None,
        },
{
    let t = chars_of(token);
    read_decimal(&t)
}

/// Where the parts of a written number lie, as they are found.
struct Parts {
    negative: bool,
    int_start: usize,
    int_end: usize,
    frac_start: usize,
    frac_end: usize,
    has_exponent: bool,
    exp_negative: bool,
    exp_start: usize,
    exp_end: usize,
}

impl Parts {
    /// Whether these are the parts that `l` describes.
    spec fn matches_layout(self, l: Layout) -> bool {
        &&& self.negative == l.negative
        &&& self.int_start == l.int_start
        &&& self.int_end == l.int_end
        &&& self.frac_start == l.frac_start
        &&& self.frac_end == l.frac_end
        &&& self.has_exponent == l.has_exponent
        &&& self.exp_negative == l.exp_negative
        &&& self.exp_start == l.exp_start
        &&& self.exp_end == l.exp_end
    }
}

/// Finds the parts of `t`.
fn read_layout(t: &Vec<char>) -> (p: Parts)
    ensures
        p.matches_layout(layout(t@)),
        p.int_start <= p.int_end <= p.frac_start <= p.frac_end <= p.exp_start <= p.exp_end
            <= t.len(),
{
    let len = t.len();
    let negative = len > 0 && t[0] == '-';
    let int_start: usize = if len > 0 && (t[0] == '+' || t[0] == '-') {
        1
    } else {
        0
    };
    let int_end = scan_digits(t, int_start);
    let has_point = int_end < len && t[int_end] == '.';
    let frac_start = if has_point {
        int_end + 1
    } else {
        int_end
    };
    let frac_end = scan_digits(t, frac_start);
    let has_exponent = frac_end < len && (t[frac_end] == 'e' || t[frac_end] == 'E');
    let exp_signed = has_exponent && frac_end + 1 < len && (t[frac_end + 1] == '+' || t[frac_end
        + 1] == '-');
    let exp_negative = exp_signed && t[frac_end + 1] == '-';
    let exp_start = if !has_exponent {
        frac_end
    } else if exp_signed {
        frac_end + 2
    } else {
        frac_end + 1
    };
    let exp_end = scan_digits(t, exp_start);
    Parts {
        negative,
        int_start,
        int_end,
        frac_start,
        frac_end,
        has_exponent,
        exp_negative,
        exp_start,
        exp_end,
    }
}

/// An exponent read only up to `EXPONENT_LIMIT` gives the magnitude all the same.
proof fn lemma_exponent_read(s: Seq<char>, e: int, k: int)
    requires
        s.len() <= usize::MAX,
        0 <= layout(s).int_start <= layout(s).int_end <= layout(s).frac_start <= layout(
            s,
        ).frac_end <= s.len(),
        e == vstd::math::min(
            digits_value(s.subrange(layout(s).exp_start, layout(s).exp_end)) as int,
            EXPONENT_LIMIT as int,
        ),
        k == (layout(s).int_end - layout(s).int_start) + (if layout(s).exp_negative {
            -e
        } else {
            e
        }) + PLACES,
    ensures
        magnitude(s) == vstd::math::min(shifted(mantissa(s), k) as int, LIMIT as int),
{
    let l = layout(s);
    let true_k = (l.int_end - l.int_start) + exponent(s) + PLACES;
    if e >= EXPONENT_LIMIT {
        lemma_far_shift(mantissa(s), k, true_k);
    }
}

/// Reads a number from its characters.
pub fn read_decimal(t: &Vec<char>) -> (r: Option<Decimal>)
    ensures
        match r {
            Some(d) => decimal_units(t@) == Some(d@),
            None => decimal_units(t@) is None,
        },
{
    let p = read_layout(t);
    if (p.int_end - p.int_start) + (p.frac_end - p.frac_start) == 0 {
        return None;
    }
    if p.has_exponent && p.exp_end == p.exp_start {
        return None;
    }
    if p.exp_end != t.len() {
        return None;
    }
    proof {
        lemma_digit_run(t@, p.int_start as int);
        lemma_digit_run(t@, p.frac_start as int);
        lemma_digit_run(t@, p.exp_start as int);
    }
    let m = join_digits(t, p.int_start, p.int_end, p.frac_start, p.frac_end);
    let e = read_digits(t, p.exp_start, p.exp_end, EXPONENT_LIMIT);
    let int_len = (p.int_end - p.int_start) as i128;
    let k: i128 = if p.exp_negative {
        int_len - (e as i128) + 18
    } else {
        int_len + (e as i128) + 18
    };
    let v = shift_digits(&m, k);
    proof {
        lemma_exponent_read(t@, e as int, k as int);
    }
    if p.negative {
        Some(Decimal { units: -(v as i128) })
    } else {
        Some(Decimal { units: v as i128 })
    }
}

} // verus!
