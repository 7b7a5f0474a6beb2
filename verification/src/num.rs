//! Exact decimal numbers: the values that literals and dice take.
use vstd::prelude::*;
use vstd::arithmetic::div_mod::*;

verus! {

/// The largest number of fractional digits a [`Decimal`] may carry.
pub const MAX_SCALE: u32 = 38;

/// `10` to the power `e`.
pub open spec fn pow10(e: nat) -> int
    decreases e,
{
    if e == 0 {
        1
    } else {
        10 * pow10((e - 1) as nat)
    }
}

/// Whether `x` fits in an `i128`.
pub open spec fn fits(x: int) -> bool {
    i128::MIN <= x <= i128::MAX
}

/// An exact decimal number, `mantissa / 10^scale`.
#[derive(Clone, Copy, PartialEq, Eq, Debug, Hash, Structural)]
pub struct Decimal {
    /// The digits of the number, as an integer.
    pub mantissa: i128,
    /// The number of fractional digits.
    pub scale: u32,
}

/// The larger of the two scales.
pub open spec fn common_scale(a: Decimal, b: Decimal) -> nat {
    if a.scale >= b.scale {
        a.scale as nat
    } else {
        b.scale as nat
    }
}

/// The exact sum, if it can be represented at the common scale.
pub open spec fn add_spec(a: Decimal, b: Decimal) -> Option<Decimal> {
    let e = common_scale(a, b);
    let x = a.at_scale(e);
    let y = b.at_scale(e);
    if fits(x) && fits(y) && fits(x + y) {
        Some(Decimal { mantissa: (x + y) as i128, scale: e as u32 })
    } else {
        None
    }
}

/// The exact difference, if it can be represented at the common scale.
pub open spec fn sub_spec(a: Decimal, b: Decimal) -> Option<Decimal> {
    let e = common_scale(a, b);
    let x = a.at_scale(e);
    let y = b.at_scale(e);
    if fits(x) && fits(y) && fits(x - y) {
        Some(Decimal { mantissa: (x - y) as i128, scale: e as u32 })
    } else {
        None
    }
}

/// The exact product, if it can be represented.
pub open spec fn mul_spec(a: Decimal, b: Decimal) -> Option<Decimal> {
    if a.scale + b.scale <= MAX_SCALE && fits(a.mantissa * b.mantissa) {
        Some(Decimal { mantissa: (a.mantissa * b.mantissa) as i128, scale: (a.scale + b.scale) as u32 })
    } else {
        None
    }
}

/// The Euclidean quotient (an integer), if it can be represented.
pub open spec fn div_euclid_spec(a: Decimal, b: Decimal) -> Option<Decimal> {
    let e = common_scale(a, b);
    let x = a.at_scale(e);
    let y = b.at_scale(e);
    if fits(x) && fits(y) && fits(x / y) {
        Some(Decimal { mantissa: (x / y) as i128, scale: 0 })
    } else {
        None
    }
}

/// The Euclidean remainder, if it can be represented.
pub open spec fn rem_euclid_spec(a: Decimal, b: Decimal) -> Option<Decimal> {
    let e = common_scale(a, b);
    let x = a.at_scale(e);
    let y = b.at_scale(e);
    if fits(x) && fits(y) {
        Some(Decimal { mantissa: (x % y) as i128, scale: e as u32 })
    } else {
        None
    }
}

/// The number truncated towards zero.
pub open spec fn trunc_spec(d: Decimal) -> int {
    let p = pow10(d.scale as nat);
    let m = d.mantissa as int;
    if m >= 0 {
        m / p
    } else {
        -((-m) / p)
    }
}

/// The decimal digit `d` as a character.
pub open spec fn digit_char(d: int) -> char {
    ((d + 48) as u8) as char
}

/// The decimal text of `n`, without leading zeros.
pub open spec fn nat_text(n: nat) -> Seq<char>
    decreases n,
{
    if n < 10 {
        seq![digit_char(n as int)]
    } else {
        nat_text(n / 10) + seq![digit_char((n % 10) as int)]
    }
}

/// The lowest `k` decimal digits of `n`, padded with leading zeros.
pub open spec fn low_digits(n: nat, k: nat) -> Seq<char>
    decreases k,
{
    if k == 0 {
        Seq::empty()
    } else {
        low_digits(n / 10, (k - 1) as nat) + seq![digit_char((n % 10) as int)]
    }
}

/// A mantissa and scale with trailing fractional zeros removed.
pub open spec fn normalize(m: int, s: nat) -> (int, nat)
    decreases s,
{
    if s > 0 && m % 10 == 0 {
        normalize(m / 10, (s - 1) as nat)
    } else {
        (m, s)
    }
}

/// The shortest decimal text of a number: no trailing fractional zeros, and
/// no decimal point for integers.
pub open spec fn decimal_text(d: Decimal) -> Seq<char> {
    let (m, s) = normalize(d.mantissa as int, d.scale as nat);
    let a: nat = if m < 0 { (-m) as nat } else { m as nat };
    let p = pow10(s);
    let sign = if m < 0 { seq!['-'] } else { Seq::empty() };
    let int_part = nat_text(a / (p as nat));
    if s == 0 {
        sign + int_part
    } else {
        sign + int_part + seq!['.'] + low_digits(a % (p as nat), s)
    }
}

impl Decimal {
    /// Whether the scale is within [`MAX_SCALE`].
    pub open spec fn wf(self) -> bool {
        self.scale <= MAX_SCALE
    }

    /// The mantissa of this number written at scale `e` (`e >= scale`).
    pub open spec fn at_scale(self, e: nat) -> int {
        self.mantissa * pow10((e - self.scale) as nat)
    }

    /// Whether this number is less than `other`.
    pub open spec fn spec_lt(self, other: Decimal) -> bool {
        let e = common_scale(self, other);
        self.at_scale(e) < other.at_scale(e)
    }

    /// Whether this number equals `other` in value.
    pub open spec fn spec_eq_value(self, other: Decimal) -> bool {
        let e = common_scale(self, other);
        self.at_scale(e) == other.at_scale(e)
    }

    /// Whether this number is zero.
    pub open spec fn is_zero_spec(self) -> bool {
        self.mantissa == 0
    }

    /// The integer `n` as a decimal.
    pub fn from_u32(n: u32) -> (d: Decimal)
        ensures
            d == (Decimal { mantissa: n as i128, scale: 0 }),
            d.wf(),
    {
        Decimal { mantissa: n as i128, scale: 0 }
    }

    /// Zero.
    pub fn zero() -> (d: Decimal)
        ensures
            d == (Decimal { mantissa: 0, scale: 0 }),
            d.wf(),
    {
        Decimal { mantissa: 0, scale: 0 }
    }

    /// Whether this number is zero.
    pub fn is_zero(self) -> (r: bool)
        ensures
            r == self.is_zero_spec(),
    {
        self.mantissa == 0
    }

    /// The negation of this number; `None` only for the one mantissa that has
    /// no negation in an `i128`.
    pub fn neg(self) -> (r: Option<Decimal>)
        ensures
            r == (if self.mantissa == i128::MIN {
                None
            } else {
                Some(Decimal { mantissa: (-self.mantissa) as i128, scale: self.scale })
            }),
    {
        if self.mantissa == i128::MIN {
            None
        } else {
            Some(Decimal { mantissa: -self.mantissa, scale: self.scale })
        }
    }

    /// The sum of two numbers.
    pub fn add(self, other: Decimal) -> (r: Option<Decimal>)
        requires
            self.wf(),
            other.wf(),
        ensures
            r == add_spec(self, other),
            r matches Some(d) ==> d.wf(),
    {
        match align(self, other) {
            Some((x, y)) => {
                let e = if self.scale >= other.scale { self.scale } else { other.scale };
                match x.checked_add(y) {
                    Some(m) => Some(Decimal { mantissa: m, scale: e }),
                    None => None,
                }
            },
            None => None,
        }
    }

    /// The difference of two numbers.
    pub fn sub(self, other: Decimal) -> (r: Option<Decimal>)
        requires
            self.wf(),
            other.wf(),
        ensures
            r == sub_spec(self, other),
            r matches Some(d) ==> d.wf(),
    {
        match align(self, other) {
            Some((x, y)) => {
                let e = if self.scale >= other.scale { self.scale } else { other.scale };
                match x.checked_sub(y) {
                    Some(m) => Some(Decimal { mantissa: m, scale: e }),
                    None => None,
                }
            },
            None => None,
        }
    }

    /// The product of two numbers.
    pub fn mul(self, other: Decimal) -> (r: Option<Decimal>)
        requires
            self.wf(),
            other.wf(),
        ensures
            r == mul_spec(self, other),
            r matches Some(d) ==> d.wf(),
    {
        if self.scale > MAX_SCALE - other.scale {
            return None;
        }
        match self.mantissa.checked_mul(other.mantissa) {
            Some(m) => Some(Decimal { mantissa: m, scale: self.scale + other.scale }),
            None => None,
        }
    }

    /// The Euclidean quotient of two numbers.
    pub fn div_euclid(self, other: Decimal) -> (r: Option<Decimal>)
        requires
            self.wf(),
            other.wf(),
            !other.is_zero_spec(),
        ensures
            r == div_euclid_spec(self, other),
            r matches Some(d) ==> d.wf(),
    {
        proof {
            lemma_at_scale_zero(other, common_scale(self, other));
        }
        match align(self, other) {
            Some((x, y)) => {
                match x.checked_div_euclid(y) {
                    Some(q) => Some(Decimal { mantissa: q, scale: 0 }),
                    None => None,
                }
            },
            None => None,
        }
    }

    /// The Euclidean remainder of two numbers.
    pub fn rem_euclid(self, other: Decimal) -> (r: Option<Decimal>)
        requires
            self.wf(),
            other.wf(),
            !other.is_zero_spec(),
        ensures
            r == rem_euclid_spec(self, other),
            r matches Some(d) ==> d.wf(),
    {
        proof {
            lemma_at_scale_zero(other, common_scale(self, other));
        }
        match align(self, other) {
            Some((x, y)) => {
                let e = if self.scale >= other.scale { self.scale } else { other.scale };
                if x == i128::MIN && y == -1 {
                    assert(x % y == 0) by (nonlinear_arith)
                        requires y == -1;
                    return Some(Decimal { mantissa: 0, scale: e });
                }
                match x.checked_rem_euclid(y) {
                    Some(m) => Some(Decimal { mantissa: m, scale: e }),
                    None => None,
                }
            },
            None => None,
        }
    }

    /// Whether this number is less than `other`.
    pub fn lt(self, other: Decimal) -> (r: bool)
        requires
            self.wf(),
            other.wf(),
        ensures
            r == self.spec_lt(other),
    {
        let e = if self.scale >= other.scale { self.scale } else { other.scale };
        proof {
            lemma_pow10_bounds((e - self.scale) as nat);
            lemma_pow10_bounds((e - other.scale) as nat);
        }
        assert(pow10(0) == 1);
        if self.scale >= other.scale {
            let p = pow10_exec(self.scale - other.scale);
            proof {
                lemma_at_own_scale(self);
            }
            match other.mantissa.checked_mul(p) {
                Some(y) => self.mantissa < y,
                None => {
                    // the scaled `other` lies beyond every i128, so beyond `self` too
                    proof {
                        lemma_sign_of_scaled(other.mantissa as int, p as int);
                    }
                    other.mantissa > 0
                },
            }
        } else {
            let p = pow10_exec(other.scale - self.scale);
            proof {
                lemma_at_own_scale(other);
            }
            match self.mantissa.checked_mul(p) {
                Some(x) => x < other.mantissa,
                None => {
                    proof {
                        lemma_sign_of_scaled(self.mantissa as int, p as int);
                    }
                    self.mantissa < 0
                },
            }
        }
    }

    /// Whether this number equals `other` in value.
    pub fn eq_value(self, other: Decimal) -> (r: bool)
        requires
            self.wf(),
            other.wf(),
        ensures
            r == self.spec_eq_value(other),
    {
        !self.lt(other) && !other.lt(self)
    }

    /// The number truncated towards zero.
    pub fn trunc(self) -> (r: i128)
        requires
            self.wf(),
        ensures
            r == trunc_spec(self),
    {
        proof {
            lemma_pow10_bounds(self.scale as nat);
        }
        let p = pow10_exec(self.scale);
        if self.mantissa >= 0 {
            self.mantissa / p
        } else if self.mantissa == i128::MIN {
            // -MIN does not fit; the quotient does, since p >= 1
            let q = (-(self.mantissa + 1)) / p;
            let r = (-(self.mantissa + 1)) % p;
            proof {
                let a = -(self.mantissa as int);
                let b = -(self.mantissa as int + 1);
                assert(b == (b / (p as int)) * p + b % (p as int)) by (nonlinear_arith)
                    requires p >= 1;
                if r + 1 == p {
                    assert(a == (q + 1) * p + 0) by (nonlinear_arith)
                        requires b == q * p + r, r + 1 == p, a == b + 1;
                    lemma_fundamental_div_mod_converse(a, p as int, q + 1, 0);
                } else {
                    assert(a == q * p + (r + 1)) by (nonlinear_arith)
                        requires b == q * p + r, a == b + 1;
                    lemma_fundamental_div_mod_converse(a, p as int, q as int, r + 1);
                }
            }
            if r + 1 == p {
                -q - 1
            } else {
                -q
            }
        } else {
            -((-self.mantissa) / p)
        }
    }

    /// The shortest decimal text of this number.
    pub fn to_text(self) -> (r: String)
        requires
            self.wf(),
        ensures
            r@ == decimal_text(self),
    {
        let (m, s) = normalize_exec(self.mantissa, self.scale);
        proof {
            lemma_normalize_scale(self.mantissa as int, self.scale as nat);
            lemma_pow10_bounds(s as nat);
        }
        let a: u128 = if m < 0 {
            (-(m + 1)) as u128 + 1
        } else {
            m as u128
        };
        let p = pow10_exec(s) as u128;
        let mut out = String::new();
        if m < 0 {
            proof { reveal_strlit("-"); }
            out.append("-");
        }
        let int_text = nat_to_text(a / p);
        out.append(int_text.as_str());
        if s > 0 {
            proof { reveal_strlit("."); }
            out.append(".");
            let frac = low_digits_exec(a % p, s);
            out.append(frac.as_str());
        }
        out
    }
}

/// The digit `d` as a character.
pub fn digit_to_char(d: u8) -> (c: char)
    requires
        d < 10,
    ensures
        c == digit_char(d as int),
{
    ((d + 48) as u8) as char
}

/// The decimal text of `n`.
pub fn nat_to_text(n: u128) -> (r: String)
    ensures
        r@ == nat_text(n as nat),
    decreases n,
{
    if n < 10 {
        let mut out = String::new();
        crate::text::push_char(&mut out, digit_to_char(n as u8));
        out
    } else {
        let mut out = nat_to_text(n / 10);
        crate::text::push_char(&mut out, digit_to_char((n % 10) as u8));
        out
    }
}

/// The lowest `k` decimal digits of `n`, padded with leading zeros.
pub fn low_digits_exec(n: u128, k: u32) -> (r: String)
    ensures
        r@ == low_digits(n as nat, k as nat),
    decreases k,
{
    if k == 0 {
        String::new()
    } else {
        let mut out = low_digits_exec(n / 10, k - 1);
        crate::text::push_char(&mut out, digit_to_char((n % 10) as u8));
        out
    }
}

/// Removes trailing fractional zeros.
pub fn normalize_exec(m: i128, s: u32) -> (r: (i128, u32))
    ensures
        (r.0 as int, r.1 as nat) == normalize(m as int, s as nat),
    decreases s,
{
    if s > 0 && m % 10 == 0 {
        normalize_exec(m / 10, s - 1)
    } else {
        (m, s)
    }
}

proof fn lemma_normalize_scale(m: int, s: nat)
    ensures
        normalize(m, s).1 <= s,
        fits(m) ==> fits(normalize(m, s).0),
    decreases s,
{
    if s > 0 && m % 10 == 0 {
        lemma_normalize_scale(m / 10, (s - 1) as nat);
    }
}

/// `pow10(e)` is positive, and fits in an `i128` for `e <= MAX_SCALE`.
pub proof fn lemma_pow10_bounds(e: nat)
    ensures
        pow10(e) >= 1,
        e <= MAX_SCALE ==> pow10(e) <= 100000000000000000000000000000000000000,
{
    lemma_pow10_mono(0, e);
    if e <= MAX_SCALE {
        lemma_pow10_mono(e, 38);
        reveal_with_fuel(pow10, 39);
    }
}

/// `pow10` is monotonic.
pub proof fn lemma_pow10_mono(e1: nat, e2: nat)
    requires
        e1 <= e2,
    ensures
        pow10(e1) <= pow10(e2),
    decreases e2,
{
    if e1 < e2 {
        lemma_pow10_mono(e1, (e2 - 1) as nat);
        lemma_pow10_mono(0, (e2 - 1) as nat);
    }
}

/// A number written at its own scale is its mantissa.
pub proof fn lemma_at_own_scale(d: Decimal)
    ensures
        d.at_scale(d.scale as nat) == d.mantissa,
{
    assert(pow10(0) == 1);
    assert((d.scale as nat - d.scale) as nat == 0);
    assert(d.mantissa * 1 == d.mantissa);
}

proof fn lemma_sign_of_scaled(m: int, p: int)
    requires
        p >= 1,
    ensures
        m > 0 ==> m * p >= m,
        m < 0 ==> m * p <= m,
        m == 0 ==> m * p == 0,
{
    assert(m > 0 ==> m * p >= m) by (nonlinear_arith)
        requires p >= 1;
    assert(m < 0 ==> m * p <= m) by (nonlinear_arith)
        requires p >= 1;
}

proof fn lemma_at_scale_zero(d: Decimal, e: nat)
    requires
        d.scale <= e,
    ensures
        (d.at_scale(e) == 0) == (d.mantissa == 0),
{
    lemma_pow10_bounds((e - d.scale) as nat);
    let p = pow10((e - d.scale) as nat);
    if d.mantissa != 0 {
        assert(d.mantissa * p != 0) by (nonlinear_arith)
            requires d.mantissa != 0, p >= 1;
    }
}

/// `10^k` as an `i128`.
pub fn pow10_exec(k: u32) -> (r: i128)
    requires
        k <= MAX_SCALE,
    ensures
        r == pow10(k as nat),
        r >= 1,
{
    let mut r: i128 = 1;
    let mut i: u32 = 0;
    while i < k
        invariant
            i <= k <= MAX_SCALE,
            r == pow10(i as nat),
        decreases k - i,
    {
        proof {
            lemma_pow10_bounds((i + 1) as nat);
            assert(pow10((i + 1) as nat) == 10 * pow10(i as nat));
        }
        r = r * 10;
        i = i + 1;
    }
    proof {
        lemma_pow10_bounds(k as nat);
    }
    r
}

/// Both numbers written at their common scale.
pub fn align(a: Decimal, b: Decimal) -> (r: Option<(i128, i128)>)
    requires
        a.wf(),
        b.wf(),
    ensures
        r matches Some((x, y)) ==> x == a.at_scale(common_scale(a, b)) && y == b.at_scale(
            common_scale(a, b),
        ),
        r is None <==> !(fits(a.at_scale(common_scale(a, b))) && fits(
            b.at_scale(common_scale(a, b)),
        )),
{
    proof {
        lemma_at_own_scale(a);
        lemma_at_own_scale(b);
    }
    if a.scale >= b.scale {
        proof {
            lemma_pow10_bounds((a.scale - b.scale) as nat);
        }
        let p = pow10_exec(a.scale - b.scale);
        match b.mantissa.checked_mul(p) {
            Some(y) => Some((a.mantissa, y)),
            None => None,
        }
    } else {
        proof {
            lemma_pow10_bounds((b.scale - a.scale) as nat);
        }
        let p = pow10_exec(b.scale - a.scale);
        match a.mantissa.checked_mul(p) {
            Some(x) => Some((x, b.mantissa)),
            None => None,
        }
    }
}


/// `10^(a + b)` is `10^a * 10^b`.
pub proof fn lemma_pow10_add(a: nat, b: nat)
    ensures
        pow10(a + b) == pow10(a) * pow10(b),
    decreases b,
{
    if b > 0 {
        lemma_pow10_add(a, (b - 1) as nat);
        assert(pow10(a + b) == 10 * pow10((a + b - 1) as nat));
        let x = pow10(a);
        let y = pow10((b - 1) as nat);
        assert(10 * (x * y) == x * (10 * y)) by (nonlinear_arith);
    }
}

/// Writing a number at a larger scale multiplies it by a power of ten.
pub proof fn lemma_at_scale_shift(d: Decimal, e: nat, e2: nat)
    requires
        d.scale <= e <= e2,
    ensures
        d.at_scale(e2) == d.at_scale(e) * pow10((e2 - e) as nat),
{
    lemma_pow10_add((e - d.scale) as nat, (e2 - e) as nat);
    assert(((e - d.scale) as nat + (e2 - e) as nat) as nat == (e2 - d.scale) as nat);
    let m = d.mantissa as int;
    let p = pow10((e - d.scale) as nat);
    let q = pow10((e2 - e) as nat);
    assert(m * (p * q) == (m * p) * q) by (nonlinear_arith);
}

/// Comparing two numbers at any scale at least as large as both gives the
/// same answer as comparing them at their common scale.
pub proof fn lemma_compare_at(a: Decimal, b: Decimal, e: nat)
    requires
        a.scale <= e,
        b.scale <= e,
    ensures
        a.spec_lt(b) == (a.at_scale(e) < b.at_scale(e)),
        a.spec_eq_value(b) == (a.at_scale(e) == b.at_scale(e)),
{
    let c = common_scale(a, b);
    lemma_at_scale_shift(a, c, e);
    lemma_at_scale_shift(b, c, e);
    lemma_pow10_bounds((e - c) as nat);
    let q = pow10((e - c) as nat);
    let x = a.at_scale(c);
    let y = b.at_scale(c);
    assert((x < y) == (x * q < y * q)) by (nonlinear_arith)
        requires q >= 1;
    assert((x == y) == (x * q == y * q)) by (nonlinear_arith)
        requires q >= 1;
}

/// The largest of three scales.
pub open spec fn max_scale3(a: Decimal, b: Decimal, c: Decimal) -> nat {
    let ab = common_scale(a, b);
    if ab >= c.scale {
        ab
    } else {
        c.scale as nat
    }
}

/// Ordering by value is a strict order, and equality in value is an
/// equivalence that agrees with it.
pub proof fn lemma_order3(a: Decimal, b: Decimal, c: Decimal)
    ensures
        !a.spec_lt(a),
        a.spec_eq_value(a),
        a.spec_lt(b) ==> !b.spec_lt(a) && !a.spec_eq_value(b),
        a.spec_eq_value(b) == b.spec_eq_value(a),
        a.spec_lt(b) || b.spec_lt(a) || a.spec_eq_value(b),
        a.spec_lt(b) && b.spec_lt(c) ==> a.spec_lt(c),
        a.spec_lt(b) && b.spec_eq_value(c) ==> a.spec_lt(c),
        a.spec_eq_value(b) && b.spec_lt(c) ==> a.spec_lt(c),
        a.spec_eq_value(b) && b.spec_eq_value(c) ==> a.spec_eq_value(c),
{
    let e = max_scale3(a, b, c);
    lemma_compare_at(a, b, e);
    lemma_compare_at(b, c, e);
    lemma_compare_at(a, c, e);
    lemma_compare_at(b, a, e);
    lemma_compare_at(a, a, e);
}


/// A number other than zero is other than zero at any scale.
pub proof fn lemma_scaled_nonzero(d: Decimal, e: nat)
    requires
        d.scale <= e,
        d.mantissa != 0,
    ensures
        d.at_scale(e) != 0,
{
    lemma_at_scale_zero(d, e);
}


/// The value of a string of decimal digits, read from left to right.
pub open spec fn digits_value(t: Seq<char>) -> nat
    decreases t.len(),
{
    if t.len() == 0 {
        0
    } else {
        digits_value(t.drop_last()) * 10 + crate::text::digit_value(t.last())
    }
}

/// Whether every character is a decimal digit.
pub open spec fn all_digits(t: Seq<char>) -> bool {
    forall|i: int| 0 <= i < t.len() ==> crate::text::is_digit(#[trigger] t[i])
}

/// A digit written as a character reads back as the digit.
pub proof fn lemma_digit_char(d: int)
    requires
        0 <= d < 10,
    ensures
        crate::text::is_digit(digit_char(d)),
        crate::text::digit_value(digit_char(d)) == d,
{
    let c = digit_char(d);
    assert(c as u32 == d + 48);
    assert('0' as u32 == 48);
    assert('9' as u32 == 57);
}


/// Reading a string of digits with more digits after it.
pub proof fn lemma_digits_value_concat(a: Seq<char>, b: Seq<char>)
    ensures
        digits_value(a + b) == digits_value(a) * pow10(b.len()) + digits_value(b),
    decreases b.len(),
{
    if b.len() == 0 {
        assert(a + b =~= a);
    } else {
        lemma_digits_value_concat(a, b.drop_last());
        assert((a + b).drop_last() =~= a + b.drop_last());
        assert((a + b).last() == b.last());
        let x = digits_value(a);
        let y = digits_value(b.drop_last());
        let p = pow10(b.drop_last().len());
        let v = crate::text::digit_value(b.last());
        assert(pow10(b.len()) == 10 * p);
        assert((x * p + y) * 10 + v == x * (10 * p) + (y * 10 + v)) by (nonlinear_arith);
    }
}

/// The text of a natural number is digits that read back as the number.
pub proof fn lemma_nat_text_reads_back(n: nat)
    ensures
        nat_text(n).len() > 0,
        all_digits(nat_text(n)),
        digits_value(nat_text(n)) == n,
    decreases n,
{
    if n < 10 {
        lemma_digit_char(n as int);
        let t = seq![digit_char(n as int)];
        assert(t.drop_last() =~= Seq::<char>::empty());
        assert(digits_value(Seq::<char>::empty()) == 0);
        assert(t.last() == digit_char(n as int));
        assert(digits_value(t) == digits_value(t.drop_last()) * 10 + crate::text::digit_value(t.last()));
    } else {
        lemma_nat_text_reads_back(n / 10);
        lemma_digit_char((n % 10) as int);
        let t = nat_text(n);
        assert(t.drop_last() =~= nat_text(n / 10));
        assert(t.last() == digit_char((n % 10) as int));
        assert forall|i: int| 0 <= i < t.len() implies crate::text::is_digit(#[trigger] t[i]) by {
            if i < t.len() - 1 {
                assert(t[i] == nat_text(n / 10)[i]);
            }
        }
        assert(digits_value(t) == digits_value(t.drop_last()) * 10 + crate::text::digit_value(t.last()));
        assert((n / 10) * 10 + n % 10 == n);
    }
}

/// The lowest `k` digits of `n` are `k` digits that read back as
/// `n % 10^k`.
pub proof fn lemma_low_digits_read_back(n: nat, k: nat)
    ensures
        low_digits(n, k).len() == k,
        all_digits(low_digits(n, k)),
        digits_value(low_digits(n, k)) == (n as int) % pow10(k),
    decreases k,
{
    lemma_pow10_bounds(k);
    if k == 0 {
        assert(n % 1 == 0);
    } else {
        lemma_low_digits_read_back(n / 10, (k - 1) as nat);
        lemma_digit_char((n % 10) as int);
        let t = low_digits(n, k);
        assert(t.drop_last() =~= low_digits(n / 10, (k - 1) as nat));
        assert forall|i: int| 0 <= i < t.len() implies crate::text::is_digit(#[trigger] t[i]) by {
            if i < t.len() - 1 {
                assert(t[i] == low_digits(n / 10, (k - 1) as nat)[i]);
            }
        }
        lemma_pow10_bounds((k - 1) as nat);
        let p = pow10((k - 1) as nat);
        vstd::arithmetic::div_mod::lemma_breakdown(n as int, 10, p);
        assert(pow10(k) == 10 * p);
        assert(10 * p == p * 10) by (nonlinear_arith);
        assert((((n / 10) as int) % p) * 10 == 10 * (((n / 10) as int) % p)) by (nonlinear_arith);
    }
}

/// Removing trailing fractional zeros keeps the value: the new mantissa
/// times a power of ten is the old one.
pub proof fn lemma_normalize_value(m: int, s: nat)
    ensures
        normalize(m, s).1 <= s,
        normalize(m, s).0 * pow10((s - normalize(m, s).1) as nat) == m,
    decreases s,
{
    if s > 0 && m % 10 == 0 {
        lemma_normalize_value(m / 10, (s - 1) as nat);
        let (m2, s2) = normalize(m / 10, (s - 1) as nat);
        let k = ((s - 1) - s2) as nat;
        assert((s - s2) as nat == k + 1);
        assert(pow10(k + 1) == 10 * pow10(k));
        assert(m2 * (10 * pow10(k)) == (m2 * pow10(k)) * 10) by (nonlinear_arith);
        assert((m / 10) * 10 == m);
    } else {
        assert(pow10(0) == 1);
    }
}

/// The text of a decimal reads back as the same value: a minus sign exactly
/// for negative numbers, then digits, then (when the number is not whole) a
/// point and more digits, such that the digits read as a fraction with as
/// many decimals as follow the point equal the number.
pub proof fn law_decimal_text_reads_back(d: Decimal)
    ensures
        (decimal_text(d).len() > 0 && decimal_text(d)[0] == '-') <==> d.mantissa < 0,
        exists|ip: Seq<char>, fp: Seq<char>|
            #![trigger all_digits(ip), all_digits(fp)]
            decimal_text(d) == (if d.mantissa < 0 { seq!['-'] } else { Seq::<char>::empty() }) + ip + (if fp.len()
                == 0 {
                Seq::<char>::empty()
            } else {
                seq!['.'] + fp
            }) && ip.len() > 0 && all_digits(ip) && all_digits(fp) && (digits_value(ip) * pow10(fp.len())
                + digits_value(fp)) * pow10(d.scale as nat) == (if d.mantissa < 0 {
                -d.mantissa
            } else {
                d.mantissa as int
            }) * pow10(fp.len()),
{
    let m0 = d.mantissa as int;
    let s0 = d.scale as nat;
    lemma_normalize_value(m0, s0);
    let (m, s) = normalize(m0, s0);
    let a: nat = if m < 0 { (-m) as nat } else { m as nat };
    let p = pow10(s);
    let q = pow10((s0 - s) as nat);
    lemma_pow10_bounds(s);
    lemma_pow10_bounds((s0 - s) as nat);
    assert((m < 0) == (m0 < 0)) by (nonlinear_arith)
        requires m * q == m0, q >= 1;
    let am0: int = if m0 < 0 { -m0 } else { m0 };
    assert(am0 == a * q) by (nonlinear_arith)
        requires m * q == m0, q >= 1, a == (if m < 0 { -m } else { m }), am0 == (if m0 < 0 { -m0 } else { m0 });
    let ip = nat_text(a / (p as nat));
    lemma_nat_text_reads_back(a / (p as nat));
    let fp = if s == 0 { Seq::<char>::empty() } else { low_digits(a % (p as nat), s) };
    lemma_low_digits_read_back(a % (p as nat), s);
    let sign = if m0 < 0 { seq!['-'] } else { Seq::<char>::empty() };
    let tail = if fp.len() == 0 { Seq::<char>::empty() } else { seq!['.'] + fp };
    let t = decimal_text(d);
    if s == 0 {
        assert(t =~= sign + ip + tail);
        assert(p == 1);
        assert(a / 1 == a);
    } else {
        assert(fp.len() == s);
        assert(t =~= sign + ip + tail);
    }
    assert(fp.len() == s);
    assert(all_digits(fp));
    assert(digits_value(fp) == (a as int) % p) by {
        if s == 0 {
            assert(a % 1 == 0);
            assert(digits_value(Seq::<char>::empty()) == 0);
        } else {
            vstd::arithmetic::div_mod::lemma_mod_bound(a as int, p);
            vstd::arithmetic::div_mod::lemma_small_mod(((a as int) % p) as nat, p as nat);
        }
    }
    vstd::arithmetic::div_mod::lemma_fundamental_div_mod(a as int, p);
    assert(digits_value(ip) * p + digits_value(fp) == a) by (nonlinear_arith)
        requires
            digits_value(ip) == (a as int) / p,
            digits_value(fp) == (a as int) % p,
            (a as int) == p * ((a as int) / p) + (a as int) % p,
            p >= 1;
    lemma_pow10_add((s0 - s) as nat, s);
    assert(((s0 - s) as nat + s) as nat == s0);
    assert(a * pow10(s0) == am0 * p) by (nonlinear_arith)
        requires am0 == a * q, pow10(s0) == q * p;
    // the first character
    if m0 < 0 {
        assert(t[0] == '-');
    } else {
        assert(t[0] == ip[0]);
        assert(crate::text::is_digit(ip[0]));
        assert('-' as u32 == 45);
    }
    assert(t == sign + ip + tail && ip.len() > 0 && all_digits(ip) && all_digits(fp));
}

} // verus!
