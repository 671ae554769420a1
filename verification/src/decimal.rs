//! Fixed-point decimal numbers.
//!
//! A [`Decimal`] is a signed mantissa of at most 96 bits and a scale of at most 28 digits; it
//! stands for `mantissa / 10^scale`. The arithmetic is that of the `rust_decimal` crate, reached
//! through the wrappers at the end of this file.
use vstd::arithmetic::power::{lemma_pow_adds, lemma_pow_positive, pow};
use vstd::prelude::*;

verus! {

/// A decimal number as a mathematical value: its mantissa and its scale.
pub type Dec = (int, nat);

/// Every mantissa is smaller than this in absolute value.
pub open spec fn mantissa_limit() -> int {
    0x1_0000_0000_0000_0000_0000_0000int
}

/// The largest mantissa that a [`Decimal`] can hold.
pub const MAX_MANTISSA: i128 = 0xFFFF_FFFF_FFFF_FFFF_FFFF_FFFF;

/// The largest scale that a [`Decimal`] can have.
pub const MAX_SCALE: u32 = 28;

/// The mantissa and the scale are within the bounds of the representation.
pub open spec fn dec_valid(d: Dec) -> bool {
    &&& -mantissa_limit() < d.0 < mantissa_limit()
    &&& d.1 <= MAX_SCALE
}

/// The number zero, with no digits after the point.
pub open spec fn dec_zero() -> Dec {
    (0, 0)
}

/// `a` is a smaller number than `b`.
pub open spec fn dec_lt(a: Dec, b: Dec) -> bool {
    a.0 * pow(10, b.1) < b.0 * pow(10, a.1)
}

/// `a` and `b` are the same number, whatever their scales.
pub open spec fn dec_same(a: Dec, b: Dec) -> bool {
    a.0 * pow(10, b.1) == b.0 * pow(10, a.1)
}

/// The order of the numbers is transitive.
pub proof fn lemma_lt_transitive(a: Dec, b: Dec, c: Dec)
    requires
        dec_lt(a, b),
        dec_lt(b, c),
    ensures
        dec_lt(a, c),
{
    let (pa, pb, pc) = (pow(10, a.1), pow(10, b.1), pow(10, c.1));
    lemma_pow_positive(10, a.1);
    lemma_pow_positive(10, b.1);
    lemma_pow_positive(10, c.1);
    let (ma, mb, mc) = (a.0, b.0, c.0);
    assert(ma * pb * pc < mb * pa * pc) by (nonlinear_arith)
        requires
            ma * pb < mb * pa,
            pc > 0,
    ;
    assert(mb * pc * pa < mc * pb * pa) by (nonlinear_arith)
        requires
            mb * pc < mc * pb,
            pa > 0,
    ;
    assert(ma * pc < mc * pa) by (nonlinear_arith)
        requires
            ma * pb * pc < mb * pa * pc,
            mb * pc * pa < mc * pb * pa,
            pb > 0,
    ;
}

/// A number that is not larger than one that is smaller than a third is smaller than that, too.
pub proof fn lemma_lt_from(a: Dec, b: Dec, c: Dec)
    requires
        !dec_lt(b, a),
        dec_lt(b, c),
    ensures
        dec_lt(a, c),
{
    let scale = a.1 + b.1 + c.1;
    lemma_lt_at_scale(b, a, scale);
    lemma_lt_at_scale(b, c, scale);
    lemma_lt_at_scale(a, c, scale);
}

/// A number that is smaller than one that is not larger than a third is smaller than that, too.
pub proof fn lemma_lt_until(a: Dec, b: Dec, c: Dec)
    requires
        dec_lt(a, b),
        !dec_lt(c, b),
    ensures
        dec_lt(a, c),
{
    let scale = a.1 + b.1 + c.1;
    lemma_lt_at_scale(a, b, scale);
    lemma_lt_at_scale(c, b, scale);
    lemma_lt_at_scale(a, c, scale);
}

/// The smaller of two numbers; the first one if they are equal.
pub open spec fn dec_min(a: Dec, b: Dec) -> Dec {
    if dec_lt(b, a) {
        b
    } else {
        a
    }
}

/// The mantissa of `d` once it is written with `scale` digits after the point.
pub open spec fn at_scale(d: Dec, scale: nat) -> int
    recommends
        d.1 <= scale,
{
    d.0 * pow(10, (scale - d.1) as nat)
}

/// The larger of the scales of two numbers.
pub open spec fn common_scale(a: Dec, b: Dec) -> nat {
    if a.1 < b.1 {
        b.1
    } else {
        a.1
    }
}

/// `m` is small enough to be a mantissa.
pub open spec fn fits(m: int) -> bool {
    -mantissa_limit() < m < mantissa_limit()
}

/// `a` and `b` can both be written with the larger of their scales.
pub open spec fn alignable(a: Dec, b: Dec) -> bool {
    &&& fits(at_scale(a, common_scale(a, b)))
    &&& fits(at_scale(b, common_scale(a, b)))
}

/// What `rust_decimal` computes for `a + b`; `None` if it overflows.
pub uninterp spec fn decimal_sum(a: (int, nat), b: (int, nat)) -> Option<(int, nat)>;

/// What `rust_decimal` computes for `a - b`; `None` if it overflows.
pub uninterp spec fn decimal_difference(a: (int, nat), b: (int, nat)) -> Option<(int, nat)>;

/// What `rust_decimal` computes for `a * b`; `None` if it overflows.
pub uninterp spec fn decimal_product(a: (int, nat), b: (int, nat)) -> Option<(int, nat)>;

/// What `rust_decimal` computes for `a / b`; `None` if `b` is zero or the quotient overflows.
pub uninterp spec fn decimal_quotient(a: (int, nat), b: (int, nat)) -> Option<(int, nat)>;

/// The decimal digit of `n`, for `n` below ten.
pub open spec fn digit_char(n: nat) -> char {
    (48 + n) as char
}

/// The decimal digits of `n`, most significant first, with leading zeros up to `width` digits.
pub open spec fn digits(n: nat, width: nat) -> Seq<char>
    decreases n + width,
{
    if n < 10 && width <= 1 {
        seq![digit_char(n)]
    } else {
        digits(n / 10, if width == 0 { 0 } else { (width - 1) as nat }).push(digit_char(n % 10))
    }
}

/// How a number is written: a minus sign if it is negative, the whole part, and behind a point
/// as many digits as the scale says.
pub open spec fn dec_text(d: Dec) -> Seq<char> {
    let sign: Seq<char> = if d.0 < 0 {
        seq!['-']
    } else {
        seq![]
    };
    let all = digits((if d.0 < 0 { -d.0 } else { d.0 }) as nat, d.1 + 1);
    if d.1 == 0 {
        sign + all
    } else {
        sign + all.take(all.len() - d.1) + seq!['.'] + all.skip(all.len() - d.1)
    }
}

/// A signed decimal number.
#[derive(Clone, Copy, Debug)]
pub struct Decimal {
    mantissa: i128,
    scale: u32,
}

impl View for Decimal {
    type V = (int, nat);

    closed spec fn view(&self) -> (int, nat) {
        (self.mantissa as int, self.scale as nat)
    }
}

/// The view of an optional number.
pub open spec fn dec_opt(d: Option<Decimal>) -> Option<Dec> {
    match d {
        Some(d) => Some(d@),
        None => None,
    }
}

impl Decimal {
    /// The mantissa and the scale of every number are within the bounds of the representation.
    #[verifier::type_invariant]
    pub open spec fn in_range(&self) -> bool {
        dec_valid(self@)
    }

    /// A number from its mantissa and its scale; `None` if one of them is out of bounds.
    pub fn try_from_i128_with_scale(num: i128, scale: u32) -> (r: Option<Decimal>)
        ensures
            dec_opt(r) == if dec_valid((num as int, scale as nat)) {
                Some((num as int, scale as nat))
            } else {
                None
            },
    {
        if scale <= MAX_SCALE && -MAX_MANTISSA <= num && num <= MAX_MANTISSA {
            Some(Decimal { mantissa: num, scale })
        } else {
            None
        }
    }

    /// A number from a 64-bit mantissa and a scale.
    pub fn new(num: i64, scale: u32) -> (r: Decimal)
        requires
            scale <= MAX_SCALE,
        ensures
            r@ == (num as int, scale as nat),
    {
        Decimal { mantissa: num as i128, scale }
    }

    /// Zero, with no digits after the point.
    pub fn zero() -> (r: Decimal)
        ensures
            r@ == dec_zero(),
    {
        Decimal { mantissa: 0, scale: 0 }
    }

    /// A whole number.
    pub fn from_u32(n: u32) -> (r: Decimal)
        ensures
            r@ == (n as int, 0nat),
    {
        Decimal { mantissa: n as i128, scale: 0 }
    }

    /// The mantissa.
    pub fn mantissa(&self) -> (r: i128)
        ensures
            r == self@.0,
    {
        self.mantissa
    }

    /// The number of digits after the point.
    pub fn scale(&self) -> (r: u32)
        ensures
            r == self@.1,
    {
        self.scale
    }

    /// Whether the number is zero.
    pub fn is_zero(&self) -> (r: bool)
        ensures
            r == (self@.0 == 0),
    {
        self.mantissa == 0
    }

    /// The smaller of two numbers; `self` if they are equal.
    pub fn min(self, other: Decimal) -> (r: Decimal)
        ensures
            r@ == dec_min(self@, other@),
            dec_lt(other@, self@) ==> r@ == other@,
            !dec_lt(other@, self@) ==> r@ == self@,
    {
        if other.less_than(self) {
            other
        } else {
            self
        }
    }
}

impl PartialEq for Decimal {
    fn eq(&self, other: &Decimal) -> (r: bool) {
        !self.less_than(*other) && !other.less_than(*self)
    }
}

impl vstd::std_specs::cmp::PartialEqSpecImpl for Decimal {
    open spec fn obeys_eq_spec() -> bool {
        true
    }

    open spec fn eq_spec(&self, other: &Decimal) -> bool {
        dec_same(self@, other@)
    }
}

/// Two numbers are equal exactly if neither is smaller than the other.
pub proof fn lemma_equal_numbers(a: Decimal, b: Decimal)
    ensures
        vstd::std_specs::cmp::PartialEqSpec::eq_spec(&a, &b) <==> !dec_lt(a@, b@) && !dec_lt(
            b@,
            a@,
        ),
{
}

impl Eq for Decimal {

}

/// `a + b`, written with the larger of the two scales.
pub open spec fn exact_sum(a: Dec, b: Dec) -> Dec {
    (at_scale(a, common_scale(a, b)) + at_scale(b, common_scale(a, b)), common_scale(a, b))
}

/// `a - b`, written with the larger of the two scales.
pub open spec fn exact_difference(a: Dec, b: Dec) -> Dec {
    (at_scale(a, common_scale(a, b)) - at_scale(b, common_scale(a, b)), common_scale(a, b))
}

/// Dividing by `divisor` moves the point by `k` digits.
pub open spec fn shifts_by(divisor: Dec, k: nat) -> bool {
    k <= 9 && divisor == (pow(10, k), 0nat)
}

/// The arithmetic of `rust_decimal`. Each wrapper hands the numbers over by mantissa and scale
/// and takes the result back in the same way, so a result is again within the bounds of the
/// representation; a zero comes back without a sign.
impl Decimal {
    /// `<` of `rust_decimal::Decimal`: compares the numbers, not their representations.
    #[verifier::external_body]
    pub(crate) fn less_than(self, other: Decimal) -> (r: bool)
        ensures
            r == dec_lt(self@, other@),
    {
        rust_decimal::Decimal::from_i128_with_scale(self.mantissa, self.scale)
            < rust_decimal::Decimal::from_i128_with_scale(other.mantissa, other.scale)
    }

    /// `rust_decimal::Decimal::checked_add`. The result has a name. A zero operand gives back
    /// the other operand as it stands, and the sum is exact, at the larger of the two scales,
    /// wherever both operands and the sum fit there. How any other sum is rounded is left to
    /// the name.
    #[verifier::external_body]
    pub(crate) fn checked_add(self, other: Decimal) -> (r: Option<Decimal>)
        ensures
            dec_opt(r) == decimal_sum(self@, other@),
            self@.0 == 0 ==> dec_opt(r) == Some(other@),
            self@.0 != 0 && other@.0 == 0 ==> dec_opt(r) == Some(self@),
            self@.0 != 0 && other@.0 != 0 && alignable(self@, other@) && fits(
                exact_sum(self@, other@).0,
            ) ==> dec_opt(r) == Some(exact_sum(self@, other@)),
    {
        rust_decimal::Decimal::from_i128_with_scale(self.mantissa, self.scale)
            .checked_add(rust_decimal::Decimal::from_i128_with_scale(other.mantissa, other.scale))
            .map(|d| Decimal { mantissa: d.mantissa(), scale: d.scale() })
    }

    /// `rust_decimal::Decimal::checked_sub`. The result has a name. A zero operand leaves the
    /// other one, negated if it is the second; the difference is exact, at the larger of the two
    /// scales, wherever both operands and the difference fit there; and taking a smaller number
    /// from a larger one leaves nothing negative. How any other difference is rounded is left to
    /// the name.
    #[verifier::external_body]
    pub(crate) fn checked_sub(self, other: Decimal) -> (r: Option<Decimal>)
        ensures
            dec_opt(r) == decimal_difference(self@, other@),
            self@.0 == 0 ==> dec_opt(r) == Some((-other@.0, other@.1)),
            self@.0 != 0 && other@.0 == 0 ==> dec_opt(r) == Some(self@),
            self@.0 != 0 && other@.0 != 0 && alignable(self@, other@) && fits(
                exact_difference(self@, other@).0,
            ) ==> dec_opt(r) == Some(exact_difference(self@, other@)),
            r is Some && dec_lt(other@, self@) ==> r->0@.0 >= 0,
    {
        rust_decimal::Decimal::from_i128_with_scale(self.mantissa, self.scale)
            .checked_sub(rust_decimal::Decimal::from_i128_with_scale(other.mantissa, other.scale))
            .map(|d| Decimal { mantissa: d.mantissa(), scale: d.scale() })
    }

    /// `rust_decimal::Decimal::checked_mul`. The result has a name. A zero factor gives zero
    /// with no digits after the point; the product is exact, at the sum of the scales, wherever
    /// it fits there; and factors that are not negative have no negative product. How any other
    /// product is rounded is left to the name.
    #[verifier::external_body]
    pub(crate) fn checked_mul(self, other: Decimal) -> (r: Option<Decimal>)
        ensures
            dec_opt(r) == decimal_product(self@, other@),
            self@.0 == 0 || other@.0 == 0 ==> dec_opt(r) == Some(dec_zero()),
            self@.0 != 0 && other@.0 != 0 && fits(self@.0 * other@.0) && self@.1 + other@.1
                <= MAX_SCALE ==> dec_opt(r) == Some((self@.0 * other@.0, self@.1 + other@.1)),
            r is Some && self@.0 >= 0 && other@.0 >= 0 ==> r->0@.0 >= 0,
    {
        rust_decimal::Decimal::from_i128_with_scale(self.mantissa, self.scale)
            .checked_mul(rust_decimal::Decimal::from_i128_with_scale(other.mantissa, other.scale))
            .map(|d| Decimal { mantissa: d.mantissa(), scale: d.scale() })
    }

    /// `rust_decimal::Decimal::checked_div`. The result has a name. There is none for a zero
    /// divisor; a zero dividend gives zero with no digits after the point; where the mantissas
    /// divide evenly and the scale does not go below zero, the quotient is exact; so is that by a
    /// power of ten of at most nine zeros, though not at a scale that is stated, wherever there
    /// are digits left to move the point by; and numbers that are not negative have no negative
    /// quotient. How any other quotient is rounded is left to the name.
    #[verifier::external_body]
    pub(crate) fn checked_div(self, other: Decimal) -> (r: Option<Decimal>)
        ensures
            dec_opt(r) == decimal_quotient(self@, other@),
            other@.0 == 0 ==> r is None,
            other@.0 != 0 && self@.0 == 0 ==> dec_opt(r) == Some(dec_zero()),
            other@.0 != 0 && self@.0 != 0 && self@.0 % other@.0 == 0 && self@.1 >= other@.1
                ==> dec_opt(r) == Some((self@.0 / other@.0, (self@.1 - other@.1) as nat)),
            forall|k: nat| #[trigger]
                shifts_by(other@, k) && self@.1 + k <= MAX_SCALE ==> r is Some && dec_same(
                    r->0@,
                    (self@.0, self@.1 + k),
                ),
            r is Some && self@.0 >= 0 && other@.0 > 0 ==> r->0@.0 >= 0,
    {
        rust_decimal::Decimal::from_i128_with_scale(self.mantissa, self.scale)
            .checked_div(rust_decimal::Decimal::from_i128_with_scale(other.mantissa, other.scale))
            .map(|d| Decimal { mantissa: d.mantissa(), scale: d.scale() })
    }

    /// `Display` of `rust_decimal::Decimal`, without a width or a precision.
    #[verifier::external_body]
    pub(crate) fn to_text(self) -> (r: String)
        ensures
            r@ == dec_text(self@),
    {
        rust_decimal::Decimal::from_i128_with_scale(self.mantissa, self.scale).to_string()
    }
}

/// Writing a number with more digits does not change which numbers are smaller.
pub proof fn lemma_lt_at_scale(a: Dec, b: Dec, scale: nat)
    requires
        a.1 <= scale,
        b.1 <= scale,
    ensures
        dec_lt(a, b) <==> at_scale(a, scale) < at_scale(b, scale),
{
    let (da, db) = ((scale - a.1) as nat, (scale - b.1) as nat);
    let (pa, pb, qa, qb) = (pow(10, a.1), pow(10, b.1), pow(10, da), pow(10, db));
    lemma_pow_positive(10, a.1);
    lemma_pow_positive(10, b.1);
    lemma_pow_positive(10, da);
    lemma_pow_positive(10, db);
    lemma_pow_adds(10, a.1, da);
    lemma_pow_adds(10, b.1, db);
    let (ma, mb) = (a.0, b.0);
    assert((ma * pb < mb * pa) == (ma * qa < mb * qb)) by (nonlinear_arith)
        requires
            pa > 0,
            pb > 0,
            qa > 0,
            qb > 0,
            pa * qa == pb * qb,
    {
        assert(ma * pb * qa * qb == (ma * qa) * (pb * qb));
        assert(mb * pa * qa * qb == (mb * qb) * (pa * qa));
        assert(qa * qb > 0);
        assert(pa * qa > 0);
        assert((ma * pb < mb * pa) == ((ma * pb) * (qa * qb) < (mb * pa) * (qa * qb)));
        assert((ma * qa < mb * qb) == ((ma * qa) * (pb * qb) < (mb * qb) * (pb * qb)));
    }
}

/// Writing a number first with some digits and then with more gives the same as writing it with
/// those at once, and never a mantissa nearer to zero.
pub proof fn lemma_at_scale_twice(d: Dec, mid: nat, scale: nat)
    requires
        d.1 <= mid <= scale,
    ensures
        at_scale((at_scale(d, mid), mid), scale) == at_scale(d, scale),
        d.0 >= 0 ==> 0 <= at_scale(d, mid) <= at_scale(d, scale),
        d.0 > 0 ==> 0 < at_scale(d, mid),
        d.0 == 0 ==> at_scale(d, mid) == 0,
{
    let (x, y) = ((mid - d.1) as nat, (scale - mid) as nat);
    lemma_pow_adds(10, x, y);
    lemma_pow_positive(10, x);
    lemma_pow_positive(10, y);
    let (m, px, py) = (d.0, pow(10, x), pow(10, y));
    assert(at_scale(d, scale) == m * (px * py));
    assert((m * px) * py == m * (px * py)) by (nonlinear_arith);
    assert(m >= 0 ==> 0 <= m * px <= (m * px) * py) by (nonlinear_arith)
        requires
            px > 0,
            py > 0,
    ;
    assert(m > 0 ==> 0 < m * px) by (nonlinear_arith)
        requires
            px > 0,
    ;
    assert(m == 0 ==> m * px == 0) by (nonlinear_arith);
}

/// Two numbers that are not negative and fit when written with `scale` digits can be aligned,
/// and their sum and difference, written so, are those of the mantissas.
pub proof fn lemma_exact_at_scale(a: Dec, b: Dec, scale: nat)
    requires
        a.1 <= scale,
        b.1 <= scale,
        a.0 >= 0,
        b.0 >= 0,
        fits(at_scale(a, scale)),
        fits(at_scale(b, scale)),
    ensures
        alignable(a, b),
        exact_sum(a, b).1 <= scale,
        exact_difference(a, b).1 <= scale,
        at_scale(exact_sum(a, b), scale) == at_scale(a, scale) + at_scale(b, scale),
        at_scale(exact_difference(a, b), scale) == at_scale(a, scale) - at_scale(b, scale),
        fits(at_scale(a, scale) + at_scale(b, scale)) ==> fits(exact_sum(a, b).0),
        fits(exact_difference(a, b).0),
{
    let c = common_scale(a, b);
    lemma_at_scale_twice(a, c, scale);
    lemma_at_scale_twice(b, c, scale);
    let p = pow(10, (scale - c) as nat);
    lemma_pow_positive(10, (scale - c) as nat);
    let (x, y) = (at_scale(a, c), at_scale(b, c));
    assert((x + y) * p == x * p + y * p) by (nonlinear_arith);
    assert((x - y) * p == x * p - y * p) by (nonlinear_arith);
    assert(x + y <= (x + y) * p) by (nonlinear_arith)
        requires
            x >= 0,
            y >= 0,
            p > 0,
    ;
}

/// What `checked_add` gives for two numbers that are not negative and whose sum fits when written
/// with `scale` digits.
pub proof fn lemma_added(a: Dec, b: Dec, sum: Option<Dec>, scale: nat)
    requires
        0 <= a.0,
        a.1 <= scale,
        0 <= b.0,
        b.1 <= scale,
        fits(at_scale(a, scale) + at_scale(b, scale)),
        a.0 == 0 ==> sum == Some(b),
        a.0 != 0 && b.0 == 0 ==> sum == Some(a),
        a.0 != 0 && b.0 != 0 && alignable(a, b) && fits(exact_sum(a, b).0) ==> sum == Some(
            exact_sum(a, b),
        ),
    ensures
        sum matches Some(d) && 0 <= d.0 && d.1 <= scale && at_scale(d, scale) == at_scale(a, scale)
            + at_scale(b, scale),
{
    lemma_at_scale_twice(a, scale, scale);
    lemma_at_scale_twice(b, scale, scale);
    lemma_exact_at_scale(a, b, scale);
    lemma_at_scale_twice(a, common_scale(a, b), scale);
    lemma_at_scale_twice(b, common_scale(a, b), scale);
}

/// Writing a product with the digits of both factors gives the product of the mantissas.
pub proof fn lemma_product_at_scale(a: Dec, b: Dec, x: nat, y: nat)
    requires
        a.1 <= x,
        b.1 <= y,
    ensures
        at_scale((a.0 * b.0, a.1 + b.1), x + y) == at_scale(a, x) * at_scale(b, y),
        a.0 >= 0 && b.0 >= 0 ==> 0 <= a.0 * b.0 <= at_scale(a, x) * at_scale(b, y),
{
    let (i, j) = ((x - a.1) as nat, (y - b.1) as nat);
    lemma_pow_adds(10, i, j);
    lemma_pow_positive(10, i);
    lemma_pow_positive(10, j);
    let (m, n, p, q) = (a.0, b.0, pow(10, i), pow(10, j));
    assert((x + y - (a.1 + b.1)) as nat == i + j);
    assert((m * n) * (p * q) == (m * p) * (n * q)) by (nonlinear_arith);
    assert(m >= 0 && n >= 0 ==> 0 <= m * n <= (m * n) * (p * q)) by (nonlinear_arith)
        requires
            p > 0,
            q > 0,
    ;
}

/// Writing a number with more digits leaves it as large as it is.
pub proof fn lemma_lt_rewritten(a: Dec, b: Dec, scale: nat)
    requires
        a.1 <= scale,
    ensures
        dec_lt(a, b) <==> dec_lt((at_scale(a, scale), scale), b),
{
    let d = (scale - a.1) as nat;
    lemma_pow_adds(10, a.1, d);
    lemma_pow_positive(10, d);
    let (ma, mb, pa, pb, q) = (a.0, b.0, pow(10, a.1), pow(10, b.1), pow(10, d));
    assert((ma * pb < mb * pa) == ((ma * q) * pb < mb * (pa * q))) by (nonlinear_arith)
        requires
            q > 0,
    {
        assert((ma * q) * pb == (ma * pb) * q);
        assert(mb * (pa * q) == (mb * pa) * q);
    }
}

/// Writing a number with more digits leaves it the same number in comparisons.
pub proof fn lemma_same_at_scale(a: Dec, b: Dec, scale: nat)
    requires
        a.1 <= scale,
        b.1 <= scale,
    ensures
        dec_same(a, b) <==> at_scale(a, scale) == at_scale(b, scale),
{
    lemma_lt_at_scale(a, b, scale);
    lemma_lt_at_scale(b, a, scale);
}

/// The sum of numbers, added up from zero in their order; `None` if that overflows.
pub open spec fn sum_of(s: Seq<Dec>) -> Option<Dec>
    decreases s.len(),
{
    if s.len() == 0 {
        Some(dec_zero())
    } else {
        match sum_of(s.drop_last()) {
            Some(sum) => decimal_sum(sum, s.last()),
            None => None,
        }
    }
}

/// The sum of an initial part of numbers that have a sum.
pub proof fn lemma_sum_of_prefix(s: Seq<Dec>, n: int)
    requires
        0 <= n <= s.len(),
        sum_of(s) is Some,
    ensures
        sum_of(s.take(n)) is Some,
    decreases s.len() - n,
{
    if n < s.len() {
        lemma_sum_of_prefix(s, n + 1);
        assert(s.take(n + 1).drop_last() =~= s.take(n));
    } else {
        assert(s.take(n) =~= s);
    }
}

/// The sum of one more number is the sum so far plus the number, and without numbers it is zero.
pub proof fn lemma_sum_of_one_more(s: Seq<Dec>, x: Dec)
    ensures
        sum_of(Seq::empty()) == Some((0int, 0nat)),
        match sum_of(s) {
            Some(sum) => sum_of(s.push(x)) == decimal_sum(sum, x),
            None => sum_of(s.push(x)) is None,
        },
{
    assert(s.push(x).drop_last() =~= s);
}

/// The total of one more number is the total so far plus the number, and without numbers it is
/// zero.
pub proof fn lemma_total_of_one_more(s: Seq<Dec>, x: Dec, scale: nat)
    requires
        x.1 <= scale,
    ensures
        total_at(Seq::empty(), scale) == 0,
        total_at(s.push(x), scale) == total_at(s, scale) + x.0 * pow(10, (scale - x.1) as nat),
{
    assert(s.push(x).drop_last() =~= s);
}

/// Of two numbers neither is smaller exactly if they are the same.
pub proof fn lemma_same_if_neither_is_smaller(a: Dec, b: Dec)
    ensures
        dec_same(a, b) <==> !dec_lt(a, b) && !dec_lt(b, a),
        dec_same(a, b) <==> a.0 * pow(10, b.1) == b.0 * pow(10, a.1),
{
}

/// The sum of the mantissas of numbers once each is written with `scale` digits after the point.
pub open spec fn total_at(s: Seq<Dec>, scale: nat) -> int
    decreases s.len(),
{
    if s.len() == 0 {
        0
    } else {
        total_at(s.drop_last(), scale) + at_scale(s.last(), scale)
    }
}

/// Numbers that are not negative and that can be added up with `scale` digits after the point.
pub open spec fn summable(s: Seq<Dec>, scale: nat) -> bool {
    &&& scale <= MAX_SCALE
    &&& forall|i: int| 0 <= i < s.len() ==> 0 <= (#[trigger] s[i]).0 && s[i].1 <= scale
    &&& fits(total_at(s, scale))
}

/// The sum of numbers that can be added up with some number of digits is there, and exact.
pub open spec fn sums_exactly(s: Seq<Dec>, sum: Option<Dec>) -> bool {
    forall|scale: nat| #[trigger]
        summable(s, scale) ==> (sum matches Some(d) && 0 <= d.0 && d.1 <= scale && at_scale(
            d,
            scale,
        ) == total_at(s, scale))
}

/// The first numbers come to no more than all of them.
proof fn lemma_total_of_prefix(s: Seq<Dec>, n: int, scale: nat)
    requires
        0 <= n <= s.len(),
        summable(s, scale),
    ensures
        0 <= total_at(s.take(n), scale) <= total_at(s, scale),
    decreases s.len(),
{
    if s.len() > 0 {
        let front = s.drop_last();
        lemma_at_scale_twice(s.last(), s.last().1, scale);
        assert(0 <= s[s.len() - 1].0);
        assert forall|i: int| 0 <= i < front.len() implies 0 <= (#[trigger] front[i]).0
            && front[i].1 <= scale by {
            assert(front[i] == s[i]);
        }
        lemma_total_nonnegative(front, scale);
        if n < s.len() {
            lemma_total_of_prefix(front, n, scale);
            assert(front.take(n) =~= s.take(n));
        } else {
            assert(s.take(n) =~= s);
        }
    }
}

/// Numbers that are not negative have no negative total.
proof fn lemma_total_nonnegative(s: Seq<Dec>, scale: nat)
    requires
        forall|i: int| 0 <= i < s.len() ==> 0 <= (#[trigger] s[i]).0 && s[i].1 <= scale,
    ensures
        0 <= total_at(s, scale),
    decreases s.len(),
{
    if s.len() > 0 {
        let front = s.drop_last();
        assert forall|i: int| 0 <= i < front.len() implies 0 <= (#[trigger] front[i]).0
            && front[i].1 <= scale by {
            assert(front[i] == s[i]);
        }
        lemma_total_nonnegative(front, scale);
        assert(0 <= s[s.len() - 1].0);
        lemma_at_scale_twice(s.last(), scale, scale);
    }
}

/// Adds one more number to a sum that is exact so far.
proof fn lemma_sum_step(s: Seq<Dec>, i: int, sum: Dec, next: Option<Dec>, scale: nat)
    requires
        0 <= i < s.len(),
        summable(s, scale),
        0 <= sum.0,
        sum.1 <= scale,
        at_scale(sum, scale) == total_at(s.take(i), scale),
        sum.0 == 0 ==> next == Some(s[i]),
        sum.0 != 0 && s[i].0 == 0 ==> next == Some(sum),
        sum.0 != 0 && s[i].0 != 0 && alignable(sum, s[i]) && fits(exact_sum(sum, s[i]).0) ==> next
            == Some(exact_sum(sum, s[i])),
    ensures
        next matches Some(d) && 0 <= d.0 && d.1 <= scale && at_scale(d, scale) == total_at(
            s.take(i + 1),
            scale,
        ),
{
    let x = s[i];
    assert(0 <= x.0 && x.1 <= scale);
    assert(s.take(i + 1).drop_last() =~= s.take(i));
    lemma_total_of_prefix(s, i, scale);
    lemma_total_of_prefix(s, i + 1, scale);
    assert(total_at(s.take(i + 1), scale) == at_scale(sum, scale) + at_scale(x, scale));
    lemma_added(sum, x, next, scale);
}

/// Taking a number out of others takes it out of their total.
proof fn lemma_total_without(s: Seq<Dec>, i: int, scale: nat)
    requires
        0 <= i < s.len(),
    ensures
        total_at(s, scale) == total_at(s.remove(i), scale) + at_scale(s[i], scale),
    decreases s.len(),
{
    if i == s.len() - 1 {
        assert(s.remove(i) =~= s.drop_last());
    } else {
        lemma_total_without(s.drop_last(), i, scale);
        assert(s.remove(i).drop_last() =~= s.drop_last().remove(i));
    }
}

/// In whatever order the same numbers are added up, their exact total is the same.
pub proof fn lemma_total_in_any_order(s: Seq<Dec>, t: Seq<Dec>, scale: nat)
    requires
        s.to_multiset() == t.to_multiset(),
    ensures
        total_at(s, scale) == total_at(t, scale),
    decreases s.len(),
{
    s.to_multiset_ensures();
    t.to_multiset_ensures();
    if s.len() > 0 {
        let last = s.len() - 1;
        assert(s.contains(s[last]));
        assert(s.to_multiset().count(s[last]) > 0);
        assert(t.contains(s[last]));
        let j = choose|j: int| 0 <= j < t.len() && t[j] == s[last];
        assert(s.remove(last).to_multiset() =~= t.remove(j).to_multiset());
        lemma_total_in_any_order(s.remove(last), t.remove(j), scale);
        lemma_total_without(s, last, scale);
        lemma_total_without(t, j, scale);
    }
}

/// The sum of numbers, added up from zero in their order; `None` if that overflows.
pub fn checked_sum(numbers: &Vec<Decimal>) -> (r: Option<Decimal>)
    ensures
        dec_opt(r) == sum_of(numbers@.map_values(|d: Decimal| d@)),
        sums_exactly(numbers@.map_values(|d: Decimal| d@), dec_opt(r)),
        numbers@.len() == 1 ==> dec_opt(r) == Some(numbers@[0]@),
{
    let ghost s = numbers@.map_values(|d: Decimal| d@);
    let mut sum = Decimal::zero();
    let mut i: usize = 0;
    proof {
        assert forall|scale: nat| #[trigger] summable(s, scale) implies at_scale(sum@, scale)
            == total_at(s.take(0), scale) by {
            lemma_at_scale_twice(dec_zero(), scale, scale);
        }
    }
    while i < numbers.len()
        invariant
            s == numbers@.map_values(|d: Decimal| d@),
            0 <= i <= s.len(),
            sum_of(s.take(i as int)) == Some(sum@),
            i == 0 ==> sum@ == dec_zero(),
            i == 1 ==> sum@ == numbers@[0]@,
            forall|scale: nat| #[trigger]
                summable(s, scale) ==> 0 <= sum@.0 && sum@.1 <= scale && at_scale(sum@, scale)
                    == total_at(s.take(i as int), scale),
        decreases s.len() - i,
    {
        proof {
            assert(s.take(i + 1).drop_last() =~= s.take(i as int));
        }
        let next = sum.checked_add(numbers[i]);
        proof {
            assert(s[i as int] == numbers@[i as int]@);
            assert forall|scale: nat| #[trigger] summable(s, scale) implies (dec_opt(
                next,
            ) matches Some(d) && 0 <= d.0 && d.1 <= scale && at_scale(d, scale) == total_at(
                s.take(i + 1),
                scale,
            )) by {
                lemma_sum_step(s, i as int, sum@, dec_opt(next), scale);
            }
        }
        match next {
            Some(next) => {
                sum = next;
            },
            None => {
                proof {
                    if sum_of(s) is Some {
                        lemma_sum_of_prefix(s, i + 1);
                    }
                }
                return None;
            },
        }
        i += 1;
    }
    assert(s.take(i as int) =~= s);
    Some(sum)
}

} // verus!
