//! Exact fixed-point scalar used for both prices and sizes.
//!
//! A `Price` stores an integer count of ticks of 10^-8 of a whole unit, so
//! addition, subtraction, comparison and accumulation are exact, and a
//! `Price` is usable as an ordered map key.

use vstd::prelude::*;
use vstd::std_specs::cmp::PartialOrdSpec;
use vstd::string::StrSliceExecFns;

use crate::digits::dec_digits;
use crate::digits::digit_val;
use crate::digits::digits_val;
use crate::digits::is_digit;
use crate::digits::padded_digits;
use crate::digits::pow10;
use crate::digits::push_char;
use crate::digits::push_dec;
use crate::digits::push_padded;
use crate::digits::lemma_pow10_le;
use crate::digits::lemma_pow10_pos;
use crate::digits::lemma_pow10_values;

verus! {

/// Number of ticks in one whole unit.
pub const WHOLE: i64 = 100_000_000;

/// Number of ticks in one cent; the display form always shows cents.
pub const CENT: i64 = 1_000_000;

#[derive(Copy, Clone, Debug, Eq, PartialEq, Ord, Hash, Structural)]
pub struct Price {
    val: i64,
}

impl View for Price {
    type V = int;

    closed spec fn view(&self) -> int {
        self.val as int
    }
}

/// Integer division truncating toward zero, as the `/` of the machine does.
pub open spec fn trunc_div(a: int, b: int) -> int {
    let q = (if a >= 0 { a } else { -a }) / (if b >= 0 { b } else { -b });
    if (a >= 0) == (b >= 0) {
        q
    } else {
        -q
    }
}

/// Every price value fits the machine word that stores it.
pub broadcast proof fn lemma_price_in_range(p: Price)
    ensures
        #![trigger p.view()]
        i64::MIN <= p@ <= i64::MAX,
{
}

impl PartialOrd for Price {
    fn partial_cmp(&self, rhs: &Price) -> (r: Option<core::cmp::Ordering>) {
        if self.val < rhs.val {
            Some(core::cmp::Ordering::Less)
        } else if self.val == rhs.val {
            Some(core::cmp::Ordering::Equal)
        } else {
            Some(core::cmp::Ordering::Greater)
        }
    }
}

impl vstd::std_specs::cmp::PartialOrdSpecImpl for Price {
    open spec fn obeys_partial_cmp_spec() -> bool {
        true
    }

    open spec fn partial_cmp_spec(&self, rhs: &Price) -> Option<core::cmp::Ordering> {
        if self@ < rhs@ {
            Some(core::cmp::Ordering::Less)
        } else if self@ == rhs@ {
            Some(core::cmp::Ordering::Equal)
        } else {
            Some(core::cmp::Ordering::Greater)
        }
    }
}

impl Price {
    /// The additive identity.
    pub fn zero() -> (r: Price)
        ensures
            r@ == 0,
    {
        Price { val: 0 }
    }

    /// Builds a price directly from a tick count (ticks of 10^-8 units).
    pub fn from_ticks(val: i64) -> (r: Price)
        ensures
            r@ == val as int,
    {
        Price { val }
    }

    /// The raw tick count.
    pub fn ticks(&self) -> (r: i64)
        ensures
            r as int == self@,
    {
        self.val
    }

    /// Exact addition over the tick representation.
    pub fn add(self, rhs: Price) -> (r: Price)
        requires
            i64::MIN <= self@ + rhs@ <= i64::MAX,
        ensures
            r@ == self@ + rhs@,
    {
        Price { val: self.val + rhs.val }
    }

    /// Exact in-place addition.
    pub fn add_assign(&mut self, rhs: Price)
        requires
            i64::MIN <= old(self)@ + rhs@ <= i64::MAX,
        ensures
            final(self)@ == old(self)@ + rhs@,
    {
        self.val = self.val + rhs.val;
    }

    /// Exact in-place subtraction.
    pub fn sub_assign(&mut self, rhs: Price)
        requires
            i64::MIN <= old(self)@ - rhs@ <= i64::MAX,
        ensures
            final(self)@ == old(self)@ - rhs@,
    {
        self.val = self.val - rhs.val;
    }

    /// Exact subtraction over the tick representation.
    pub fn sub(self, rhs: Price) -> (r: Price)
        requires
            i64::MIN <= self@ - rhs@ <= i64::MAX,
        ensures
            r@ == self@ - rhs@,
    {
        Price { val: self.val - rhs.val }
    }

    /// Exact scaling by an integer factor.
    pub fn mul(self, rhs: i64) -> (r: Price)
        requires
            i64::MIN <= self@ * rhs <= i64::MAX,
        ensures
            r@ == self@ * rhs,
    {
        Price { val: self.val * rhs }
    }

    /// Scaling down by an integer divisor; the quotient truncates toward
    /// zero, as integer division of the machine does.
    pub fn div(self, rhs: i64) -> (r: Price)
        requires
            rhs != 0,
            !(self@ == i64::MIN && rhs == -1),
        ensures
            r@ == trunc_div(self@, rhs as int),
    {
        let a: i128 = self.val as i128;
        let b: i128 = rhs as i128;
        let ma: i128 = if a >= 0 { a } else { -a };
        let mb: i128 = if b >= 0 { b } else { -b };
        let q: i128 = ma / mb;
        let signed: i128 = if (a >= 0) == (b >= 0) { q } else { -q };
        proof {
            vstd::arithmetic::div_mod::lemma_div_pos_is_pos(ma as int, mb as int);
            vstd::arithmetic::div_mod::lemma_div_nonincreasing(ma as int, mb as int);
            if mb >= 2 {
                vstd::arithmetic::div_mod::lemma_div_is_ordered_by_denominator(
                    ma as int,
                    2,
                    mb as int,
                );
                vstd::arithmetic::div_mod::lemma_div_is_ordered(
                    ma as int,
                    0x8000_0000_0000_0000,
                    2,
                );
            }
        }
        Price { val: signed as i64 }
    }
}

/// Why a string failed to parse as a price.
#[derive(Copy, Clone, Debug, PartialEq, Eq, Structural)]
pub enum ParseError {
    /// The string is not a decimal real number.
    Malformed,
    /// The value does not fit the tick representation.
    OutOfRange,
}

/// Whether the string starts with an explicit sign character.
pub open spec fn has_sign(s: Seq<char>) -> bool {
    s.len() > 0 && (s[0] == '+' || s[0] == '-')
}

/// Whether the string denotes a negative number.
pub open spec fn is_neg(s: Seq<char>) -> bool {
    s.len() > 0 && s[0] == '-'
}

/// The string with its sign character, if any, removed.
pub open spec fn body_of(s: Seq<char>) -> Seq<char> {
    if has_sign(s) {
        s.drop_first()
    } else {
        s
    }
}

/// A valid unsigned decimal body: non-empty, only digits and at most one
/// dot, and at least one digit.
pub open spec fn valid_body(b: Seq<char>) -> bool {
    &&& b.len() > 0
    &&& forall|k: int| 0 <= k < b.len() ==> is_digit(#[trigger] b[k]) || b[k] == '.'
    &&& forall|k: int, l: int| 0 <= k < l < b.len() && #[trigger] b[k] == '.' ==> #[trigger] b[l]
        != '.'
    &&& exists|k: int| 0 <= k < b.len() && is_digit(#[trigger] b[k])
}

/// Position of the first dot, or the length when there is none.
pub open spec fn dot_pos(b: Seq<char>) -> int
    decreases b.len(),
{
    if b.len() == 0 {
        0
    } else if b[0] == '.' {
        0
    } else {
        1 + dot_pos(b.drop_first())
    }
}

/// The digits before the dot.
pub open spec fn int_part(b: Seq<char>) -> Seq<char> {
    b.subrange(0, dot_pos(b))
}

/// The digits after the dot.
pub open spec fn frac_part(b: Seq<char>) -> Seq<char> {
    if dot_pos(b) < b.len() {
        b.subrange(dot_pos(b) + 1, b.len() as int)
    } else {
        Seq::<char>::empty()
    }
}

/// The tick value of the fractional digits: the first eight of them, scaled
/// so that eight digits make one whole unit; further digits are truncated
/// toward zero.
pub open spec fn frac_ticks(fs: Seq<char>) -> int {
    let k = if fs.len() <= 8 {
        fs.len() as int
    } else {
        8
    };
    digits_val(fs.take(k)) * pow10(8 - k)
}

/// The tick magnitude denoted by an unsigned decimal body.
pub open spec fn body_ticks(b: Seq<char>) -> int {
    digits_val(int_part(b)) * (WHOLE as int) + frac_ticks(frac_part(b))
}

/// Whether the whole string is a valid signed decimal number.
pub open spec fn parse_valid(s: Seq<char>) -> bool {
    valid_body(body_of(s))
}

/// The tick magnitude denoted by the string.
pub open spec fn parse_mag(s: Seq<char>) -> int {
    body_ticks(body_of(s))
}

/// The signed tick value denoted by the string.
pub open spec fn parse_val(s: Seq<char>) -> int {
    if is_neg(s) {
        -parse_mag(s)
    } else {
        parse_mag(s)
    }
}

proof fn lemma_dot_pos_at(b: Seq<char>, d: int)
    requires
        0 <= d <= b.len(),
        forall|k: int| 0 <= k < d ==> #[trigger] b[k] != '.',
        d < b.len() ==> b[d] == '.',
    ensures
        dot_pos(b) == d,
    decreases d,
{
    if b.len() == 0 {
    } else if d == 0 {
    } else {
        lemma_dot_pos_at(b.drop_first(), d - 1);
    }
}

proof fn lemma_digits_val_bounds(ds: Seq<char>)
    requires
        forall|k: int| 0 <= k < ds.len() ==> is_digit(#[trigger] ds[k]),
    ensures
        0 <= digits_val(ds) < pow10(ds.len() as int),
    decreases ds.len(),
{
    if ds.len() == 0 {
        assert(pow10(0) == 1);
    } else {
        lemma_digits_val_bounds(ds.drop_last());
        assert(pow10(ds.len() as int) == 10 * pow10(ds.len() - 1));
        assert(0 <= digit_val(ds.last()) <= 9);
        assert(digits_val(ds.drop_last()) * 10 + 9 < 10 * pow10(ds.len() - 1)) by (nonlinear_arith)
            requires
                digits_val(ds.drop_last()) < pow10(ds.len() - 1),
        ;
    }
}

proof fn lemma_digits_take_step(ds: Seq<char>, k: int)
    requires
        0 <= k < ds.len(),
    ensures
        digits_val(ds.take(k + 1)) == digits_val(ds.take(k)) * 10 + digit_val(ds[k]),
{
    assert(ds.take(k + 1).drop_last() =~= ds.take(k));
    assert(ds.take(k + 1).last() == ds[k]);
}

proof fn lemma_digits_val_monotone(ds: Seq<char>, k: int)
    requires
        forall|l: int| 0 <= l < ds.len() ==> is_digit(#[trigger] ds[l]),
        0 <= k <= ds.len(),
    ensures
        digits_val(ds) >= digits_val(ds.take(k)),
    decreases ds.len() - k,
{
    if k == ds.len() {
        assert(ds.take(k) =~= ds);
    } else {
        lemma_digits_take_step(ds, k);
        assert forall|l: int| 0 <= l < ds.take(k).len() implies is_digit(
            #[trigger] ds.take(k)[l]) by {
            assert(ds.take(k)[l] == ds[l]);
        }
        lemma_digits_val_bounds(ds.take(k));
        lemma_digits_val_monotone(ds, k + 1);
    }
}

proof fn lemma_scale_guard(acc: int, addend: int, factor: int, max: int)
    requires
        0 <= acc,
        0 <= addend < factor,
        0 < factor,
        addend <= max,
    ensures
        (acc > (max - addend) / factor) == (acc * factor + addend > max),
{
    let q = (max - addend) / factor;
    let r = (max - addend) % factor;
    vstd::arithmetic::div_mod::lemma_fundamental_div_mod(max - addend, factor);
    vstd::arithmetic::div_mod::lemma_div_pos_is_pos(max - addend, factor);
    vstd::arithmetic::div_mod::lemma_remainder_lower(max - addend, factor);
    vstd::arithmetic::div_mod::lemma_remainder_upper(max - addend, factor);
    if acc <= q {
        assert(acc * factor + addend <= max) by (nonlinear_arith)
            requires
                acc <= q,
                factor > 0,
                0 <= r,
                max - addend == factor * q + r,
        ;
    } else {
        assert(acc * factor + addend > max) by (nonlinear_arith)
            requires
                acc >= q + 1,
                factor > 0,
                r < factor,
                max - addend == factor * q + r,
        ;
    }
}

/// The fractional tail beyond the cents: nothing when `frac` is zero, else
/// `frac` zero-padded to `w` digits with its trailing zeros trimmed.
pub open spec fn frac_tail(frac: int, w: int) -> Seq<char>
    decreases frac,
{
    if frac <= 0 {
        Seq::<char>::empty()
    } else if frac % 10 == 0 {
        frac_tail(frac / 10, w - 1)
    } else {
        padded_digits(frac, w)
    }
}

/// The display form of a price of value `v` ticks: sign, whole part, a dot,
/// exactly two cent digits, then up to six more fractional digits with
/// trailing zeros trimmed.
pub open spec fn spec_display(v: int) -> Seq<char> {
    let a = if v >= 0 {
        v
    } else {
        -v
    };
    let whole = a / (WHOLE as int);
    let part = a % (WHOLE as int);
    let cents = part / (CENT as int);
    let frac = part % (CENT as int);
    (if v < 0 {
        seq!['-']
    } else {
        Seq::<char>::empty()
    }) + dec_digits(whole) + seq!['.'] + padded_digits(cents, 2) + frac_tail(frac, 6)
}

impl Price {
    /// The display form: sign, whole part, always at least the two cent
    /// digits, then up to six more fractional digits, trailing zeros beyond
    /// the cents trimmed.
    pub fn to_display(&self) -> (r: String)
        ensures
            r@ == spec_display(self@),
    {
        let mut s = String::new();
        let neg = self.val < 0;
        let a128: i128 = self.val as i128;
        let a: u64 = if neg {
            (-a128) as u64
        } else {
            self.val as u64
        };
        let whole: u64 = a / (WHOLE as u64);
        let part: u64 = a % (WHOLE as u64);
        let cents: u64 = part / (CENT as u64);
        let mut frac: u64 = part % (CENT as u64);
        if neg {
            push_char(&mut s, '-');
        }
        push_dec(&mut s, whole);
        push_char(&mut s, '.');
        push_padded(&mut s, cents, 2);
        let ghost head = s@;
        let ghost frac0 = frac as int;
        let mut width: u64 = 6;
        proof {
            lemma_pow10_values();
        }
        while frac != 0 && frac % 10 == 0
            invariant
                width <= 6,
                (frac as int) < pow10(width as int),
                frac_tail(frac0, 6) == frac_tail(frac as int, width as int),
                s@ == head,
            decreases frac,
        {
            proof {
                if width == 0 {
                    assert(pow10(0) == 1);
                }
                assert(width >= 1);
                assert(frac as int == 10 * ((frac as int) / 10));
                assert(pow10(width as int) == 10 * pow10(width as int - 1));
            }
            frac = frac / 10;
            width = width - 1;
        }
        if frac != 0 {
            push_padded(&mut s, frac, width);
            proof {
                assert(frac_tail(frac as int, width as int) == padded_digits(
                    frac as int,
                    width as int,
                ));
            }
        } else {
            proof {
                assert(frac_tail(frac as int, width as int) == Seq::<char>::empty());
                assert(s@ =~= head + frac_tail(frac as int, width as int));
            }
        }
        proof {
            assert(s@ =~= spec_display(self@));
        }
        s
    }
}

impl Price {
    /// Parses a decimal string such as "-12.34", "0.5" or "7." into a
    /// price; the value is truncated toward zero to eight fractional
    /// digits.  `Malformed` names a string that is not a signed decimal
    /// number; `OutOfRange` a magnitude beyond the tick representation.
    pub fn parse(s: &str) -> (r: Result<Price, ParseError>)
        ensures
            (match r {
                Ok(p) => parse_valid(s@) && parse_mag(s@) <= i64::MAX && p@ == parse_val(s@),
                Err(ParseError::Malformed) => !parse_valid(s@),
                Err(ParseError::OutOfRange) => parse_valid(s@) && parse_mag(s@) > i64::MAX,
            }),
    {
        let ghost sv = s@;
        let n = s.unicode_len();
        let mut off: usize = 0;
        let mut neg = false;
        if n > 0 {
            let c0 = s.get_char(0);
            if c0 == '-' {
                neg = true;
                off = 1;
            } else if c0 == '+' {
                off = 1;
            }
        }
        let ghost b = body_of(sv);
        proof {
            assert(b =~= sv.subrange(off as int, n as int));
            assert(neg == is_neg(sv));
        }
        let m = n - off;
        let mut has_digit = false;
        let mut saw_dot = false;
        let mut dot: usize = m;
        let mut j: usize = 0;
        while j < m
            invariant
                j <= m,
                sv == s@,
                n == sv.len(),
                off + m == n,
                b == body_of(sv),
                b.len() == m,
                forall|k: int| 0 <= k < b.len() ==> #[trigger] b[k] == sv[off + k],
                forall|k: int| 0 <= k < j ==> is_digit(#[trigger] b[k]) || b[k] == '.',
                has_digit <==> exists|k: int| 0 <= k < j && is_digit(#[trigger] b[k]),
                saw_dot ==> dot < j && b[dot as int] == '.' && forall|k: int|
                    0 <= k < j && k != dot ==> #[trigger] b[k] != '.',
                !saw_dot ==> dot == m && forall|k: int| 0 <= k < j ==> #[trigger] b[k] != '.',
            decreases m - j,
        {
            let c = s.get_char(off + j);
            let u = c as u32;
            if 48 <= u && u <= 57 {
                has_digit = true;
                proof {
                    assert(is_digit(b[j as int]));
                }
            } else if c == '.' {
                proof {
                    assert(!is_digit(b[j as int]));
                }
                if saw_dot {
                    proof {
                        assert(b[dot as int] == '.' && b[j as int] == '.' && (dot as int) < j);
                        assert(!valid_body(b));
                    }
                    return Err(ParseError::Malformed);
                }
                saw_dot = true;
                dot = j;
            } else {
                proof {
                    assert(!(is_digit(b[j as int]) || b[j as int] == '.'));
                    assert(!valid_body(b));
                }
                return Err(ParseError::Malformed);
            }
            j = j + 1;
        }
        if !has_digit {
            proof {
                assert(!valid_body(b));
            }
            return Err(ParseError::Malformed);
        }
        proof {
            assert(valid_body(b));
            lemma_dot_pos_at(b, dot as int);
        }
        let ghost ip = int_part(b);
        let ghost fp = frac_part(b);
        proof {
            assert(ip =~= b.subrange(0, dot as int));
            assert forall|k: int| 0 <= k < ip.len() implies is_digit(#[trigger] ip[k]) by {
                assert(ip[k] == b[k]);
            }
            if (dot as int) < b.len() {
                assert(fp =~= b.subrange(dot as int + 1, m as int));
            }
            assert forall|k: int| 0 <= k < fp.len() implies is_digit(#[trigger] fp[k]) by {
                assert(fp[k] == b[dot + 1 + k]);
                assert(b[dot as int] == '.');
            }
            lemma_pow10_values();
        }
        // Integer part, with an exact overflow guard.
        let mut acc: u64 = 0;
        let mut k: usize = 0;
        while k < dot
            invariant
                k <= dot,
                dot <= m,
                sv == s@,
                n == sv.len(),
                off + m == n,
                b == body_of(sv),
                b.len() == m,
                valid_body(b),
                ip == int_part(b),
                fp == frac_part(b),
                ip.len() == dot as int,
                forall|x: int| 0 <= x < b.len() ==> #[trigger] b[x] == sv[off + x],
                forall|x: int| 0 <= x < ip.len() ==> #[trigger] ip[x] == b[x],
                forall|x: int| 0 <= x < ip.len() ==> is_digit(#[trigger] ip[x]),
                forall|x: int| 0 <= x < fp.len() ==> is_digit(#[trigger] fp[x]),
                acc as int == digits_val(ip.take(k as int)),
                acc <= i64::MAX as u64,
            decreases dot - k,
        {
            let c = s.get_char(off + k);
            proof {
                assert(ip[k as int] == b[k as int]);
                assert(is_digit(ip[k as int]));
                lemma_digits_take_step(ip, k as int);
            }
            let d: u64 = (c as u32 - 48) as u64;
            if acc > (9_223_372_036_854_775_807u64 - d) / 10 {
                proof {
                    lemma_scale_guard(acc as int, d as int, 10, i64::MAX as int);
                    lemma_digits_val_monotone(ip, k as int + 1);
                    lemma_digits_val_bounds(ip);
                    let fk = if fp.len() <= 8 {
                        fp.len() as int
                    } else {
                        8
                    };
                    assert forall|x: int| 0 <= x < fp.take(fk).len() implies is_digit(
                        #[trigger] fp.take(fk)[x]) by {
                        assert(fp.take(fk)[x] == fp[x]);
                    }
                    lemma_digits_val_bounds(fp.take(fk));
                    lemma_pow10_pos(8 - fk);
                    assert(frac_ticks(fp) >= 0) by (nonlinear_arith)
                        requires
                            digits_val(fp.take(if fp.len() <= 8 {
                                fp.len() as int
                            } else {
                                8
                            })) >= 0,
                            pow10(8 - (if fp.len() <= 8 {
                                fp.len() as int
                            } else {
                                8
                            })) >= 1,
                    ;
                    assert(digits_val(ip) * (WHOLE as int) >= digits_val(ip)) by (nonlinear_arith)
                        requires
                            digits_val(ip) >= 0,
                    ;
                    assert(body_ticks(b) > i64::MAX);
                }
                return Err(ParseError::OutOfRange);
            }
            acc = acc * 10 + d;
            k = k + 1;
        }
        proof {
            assert(ip.take(dot as int) =~= ip);
        }
        // Fractional part: the first eight digits, then scale up to eight.
        let fl: usize = if saw_dot {
            m - dot - 1
        } else {
            0
        };
        proof {
            assert(fl as int == fp.len());
        }
        let take8: usize = if fl <= 8 {
            fl
        } else {
            8
        };
        let mut fac: u64 = 0;
        let mut t: usize = 0;
        while t < take8
            invariant
                t <= take8,
                take8 <= 8,
                take8 as int <= fp.len(),
                sv == s@,
                n == sv.len(),
                off + m == n,
                b == body_of(sv),
                b.len() == m,
                fp == frac_part(b),
                saw_dot ==> dot < m && fp.len() == m - dot - 1,
                !saw_dot ==> fp.len() == 0,
                forall|x: int| 0 <= x < b.len() ==> #[trigger] b[x] == sv[off + x],
                forall|x: int| 0 <= x < fp.len() ==> #[trigger] fp[x] == b[dot + 1 + x],
                forall|x: int| 0 <= x < fp.len() ==> is_digit(#[trigger] fp[x]),
                fac as int == digits_val(fp.take(t as int)),
                (fac as int) < pow10(t as int),
            decreases take8 - t,
        {
            let c = s.get_char(off + dot + 1 + t);
            proof {
                assert(fp[t as int] == b[dot + 1 + t]);
                assert(is_digit(fp[t as int]));
                lemma_digits_take_step(fp, t as int);
                lemma_pow10_values();
                lemma_pow10_le(t as int + 1, 8);
                assert(pow10(t as int + 1) == 10 * pow10(t as int));
            }
            let d: u64 = (c as u32 - 48) as u64;
            fac = fac * 10 + d;
            t = t + 1;
        }
        let mut pad: usize = take8;
        proof {
            assert(fp.take(take8 as int).len() == take8 as int);
            lemma_pow10_values();
        }
        while pad < 8
            invariant
                take8 <= pad <= 8,
                fac as int == digits_val(fp.take(take8 as int)) * pow10(pad as int - take8 as int),
                (fac as int) < pow10(pad as int),
            decreases 8 - pad,
        {
            proof {
                lemma_pow10_values();
                lemma_pow10_le(pad as int + 1, 8);
                assert(pow10(pad as int + 1) == 10 * pow10(pad as int));
                assert(digits_val(fp.take(take8 as int)) * pow10(pad as int + 1 - take8 as int)
                    == fac as int * 10) by (nonlinear_arith)
                    requires
                        fac as int == digits_val(fp.take(take8 as int)) * pow10(
                            pad as int - take8 as int,
                        ),
                        pow10(pad as int + 1 - take8 as int) == 10 * pow10(
                            pad as int - take8 as int,
                        ),
                ;
            }
            fac = fac * 10;
            pad = pad + 1;
        }
        proof {
            lemma_pow10_values();
            assert(fac as int == frac_ticks(fp)) by {
                assert(pow10(0) == 1);
                if take8 as int == fp.len() {
                    assert(fp.take(take8 as int) =~= fp.take(if fp.len() <= 8 {
                        fp.len() as int
                    } else {
                        8
                    }));
                }
            }
            assert(fac < 100_000_000);
            lemma_scale_guard(acc as int, fac as int, WHOLE as int, i64::MAX as int);
        }
        if acc > (9_223_372_036_854_775_807u64 - fac) / (WHOLE as u64) {
            proof {
                assert(body_ticks(b) > i64::MAX);
            }
            return Err(ParseError::OutOfRange);
        }
        let mag: u64 = acc * (WHOLE as u64) + fac;
        proof {
            assert(mag as int == body_ticks(b));
            assert(mag as int == parse_mag(sv));
        }
        let v: i64 = mag as i64;
        let val: i64 = if neg {
            -v
        } else {
            v
        };
        Ok(Price { val })
    }
}

/// The sum of two prices, less the second, is the first again, whenever the
/// sum itself is representable; this is exactness of the fixed-point
/// arithmetic, stated over the contracts of `add` and `sub`.
pub proof fn lemma_add_sub_cancel(a: Price, b: Price, sum: Price, back: Price)
    requires
        sum@ == a@ + b@,
        back@ == sum@ - b@,
    ensures
        back == a,
{
}

/// The ordering of prices is total: it is reflexive, antisymmetric,
/// transitive, and any two prices are comparable; and it agrees with the
/// order of the underlying values, hence with the real-number reading.
pub proof fn lemma_order_total(a: Price, b: Price, c: Price)
    ensures
        a.partial_cmp_spec(&b) == Some(core::cmp::Ordering::Equal) <==> a == b,
        a.partial_cmp_spec(&b) == Some(core::cmp::Ordering::Less) <==> a@ < b@,
        a@ <= b@ || b@ <= a@,
        a@ <= b@ && b@ <= a@ ==> a == b,
        a@ <= b@ && b@ <= c@ ==> a@ <= c@,
{
}

} // verus!
