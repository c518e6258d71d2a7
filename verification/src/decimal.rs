use vstd::prelude::*;

verus! {

/// The largest mantissa magnitude a decimal can hold: 2^96 - 1.
pub const MAX_MANTISSA: i128 = 0xFFFF_FFFF_FFFF_FFFF_FFFF_FFFFi128;

/// The largest number of digits after the point.
pub const MAX_SCALE: u32 = 28;

/// 10 to the power `n`.
pub open spec fn pow10(n: nat) -> int
    decreases n,
{
    if n == 0 {
        1
    } else {
        10 * pow10((n - 1) as nat)
    }
}

pub proof fn lemma_pow10_positive(n: nat)
    ensures
        pow10(n) > 0,
    decreases n,
{
    if n > 0 {
        lemma_pow10_positive((n - 1) as nat);
    }
}

/// The mathematical content of a decimal: `mantissa / 10^scale`.
pub ghost struct DecimalModel {
    pub mantissa: int,
    pub scale: nat,
}

impl DecimalModel {
    /// Within the range that a decimal can represent.
    pub open spec fn wf(self) -> bool {
        &&& self.scale <= MAX_SCALE
        &&& -MAX_MANTISSA <= self.mantissa <= MAX_MANTISSA
    }

    /// The value counted in units of 10^-28; exact for every well-formed decimal,
    /// so that two decimals are ordered as their units are.
    pub open spec fn units(self) -> int {
        self.mantissa * pow10((MAX_SCALE - self.scale) as nat)
    }
}

/// Zero written with the given number of digits after the point.
pub open spec fn zero_with_scale(scale: nat) -> DecimalModel {
    DecimalModel { mantissa: 0, scale }
}

/// The larger of the two scales: the scale at which `a - b` is taken.
pub open spec fn common_scale(a: DecimalModel, b: DecimalModel) -> nat {
    if a.scale >= b.scale {
        a.scale
    } else {
        b.scale
    }
}

/// The mantissa of `a` written with `scale` digits after the point, for a `scale`
/// at least `a.scale`.
pub open spec fn mantissa_at(a: DecimalModel, scale: nat) -> int {
    a.mantissa * pow10((scale - a.scale) as nat)
}

/// `a - b` computed exactly and written as `rust_decimal` writes it: `-b` where `a`
/// is zero, `a` where `b` is zero, and otherwise at the larger of the two scales.
pub open spec fn exact_difference(a: DecimalModel, b: DecimalModel) -> DecimalModel {
    if a.mantissa == 0 {
        DecimalModel { mantissa: -b.mantissa, scale: b.scale }
    } else if b.mantissa == 0 {
        a
    } else {
        let s = common_scale(a, b);
        DecimalModel { mantissa: mantissa_at(a, s) - mantissa_at(b, s), scale: s }
    }
}

/// The exact difference `a - b` fits in a decimal's mantissa: nothing is rounded.
pub open spec fn exact_sub_fits(a: DecimalModel, b: DecimalModel) -> bool {
    -MAX_MANTISSA <= exact_difference(a, b).mantissa <= MAX_MANTISSA
}

/// What `rust_decimal`'s checked subtraction returns for `a - b` where the exact
/// difference does not fit: `None` on overflow, else a rounded difference.
pub uninterp spec fn decimal_difference(a: DecimalModel, b: DecimalModel) -> Option<DecimalModel>;

/// The checked difference `a - b`: exact where the exact difference fits, and
/// otherwise what the decimal library computes.
pub open spec fn checked_difference(a: DecimalModel, b: DecimalModel) -> Option<DecimalModel> {
    if exact_sub_fits(a, b) {
        Some(exact_difference(a, b))
    } else {
        decimal_difference(a, b)
    }
}

/// -1, 0 or 1 as `x` is below, at or above `y`.
pub open spec fn sign_of_difference(x: int, y: int) -> i8 {
    if x < y {
        -1i8
    } else if x == y {
        0i8
    } else {
        1i8
    }
}

pub proof fn lemma_units_sign(d: DecimalModel)
    requires
        d.scale <= MAX_SCALE,
    ensures
        (d.units() > 0) == (d.mantissa > 0),
        (d.units() == 0) == (d.mantissa == 0),
        (d.units() < 0) == (d.mantissa < 0),
{
    let p = pow10((MAX_SCALE - d.scale) as nat);
    lemma_pow10_positive((MAX_SCALE - d.scale) as nat);
    assert(d.mantissa > 0 ==> d.mantissa * p > 0) by (nonlinear_arith)
        requires
            p > 0,
    ;
    assert(d.mantissa < 0 ==> d.mantissa * p < 0) by (nonlinear_arith)
        requires
            p > 0,
    ;
    assert(d.mantissa == 0 ==> d.mantissa * p == 0) by (nonlinear_arith);
}

/// Zero of any scale counts zero units.
pub proof fn lemma_zero_units(scale: nat)
    ensures
        zero_with_scale(scale).units() == 0,
{
    assert(0 * pow10((MAX_SCALE - scale) as nat) == 0) by (nonlinear_arith);
}

pub proof fn lemma_pow10_add(x: nat, y: nat)
    ensures
        pow10(x + y) == pow10(x) * pow10(y),
    decreases y,
{
    if y > 0 {
        lemma_pow10_add(x, (y - 1) as nat);
        let px = pow10(x);
        let py = pow10((y - 1) as nat);
        assert(pow10((x + y) as nat) == 10 * pow10((x + y - 1) as nat));
        assert(10 * (px * py) == px * (10 * py)) by (nonlinear_arith);
    }
}

/// Writing a decimal at a finer scale, in two steps or in one, gives one mantissa.
pub proof fn lemma_mantissa_at_chain(a: DecimalModel, mid: nat, scale: nat)
    requires
        a.scale <= mid <= scale,
    ensures
        mantissa_at(a, mid) * pow10((scale - mid) as nat) == mantissa_at(a, scale),
{
    let p1 = pow10((mid - a.scale) as nat);
    let p2 = pow10((scale - mid) as nat);
    lemma_pow10_add((mid - a.scale) as nat, (scale - mid) as nat);
    assert(((mid - a.scale) + (scale - mid)) as nat == (scale - a.scale) as nat);
    assert(a.mantissa * p1 * p2 == a.mantissa * (p1 * p2)) by (nonlinear_arith);
}

/// Writing a decimal at a finer scale keeps its units.
pub proof fn lemma_mantissa_at_units(a: DecimalModel, scale: nat)
    requires
        a.scale <= scale <= MAX_SCALE,
    ensures
        mantissa_at(a, scale) * pow10((MAX_SCALE - scale) as nat) == a.units(),
{
    lemma_mantissa_at_chain(a, scale, MAX_SCALE as nat);
}

/// The exact difference counts the difference of the units.
pub proof fn lemma_exact_difference_units(a: DecimalModel, b: DecimalModel)
    requires
        a.scale <= MAX_SCALE,
        b.scale <= MAX_SCALE,
    ensures
        exact_difference(a, b).units() == a.units() - b.units(),
{
    if a.mantissa == 0 {
        let p = pow10((MAX_SCALE - b.scale) as nat);
        assert(a.units() == 0) by {
            assert(0 * pow10((MAX_SCALE - a.scale) as nat) == 0) by (nonlinear_arith);
        }
        assert((-b.mantissa) * p == -(b.mantissa * p)) by (nonlinear_arith);
    } else if b.mantissa == 0 {
        assert(b.units() == 0) by {
            assert(0 * pow10((MAX_SCALE - b.scale) as nat) == 0) by (nonlinear_arith);
        }
    } else {
        let s = common_scale(a, b);
        let p = pow10((MAX_SCALE - s) as nat);
        lemma_mantissa_at_units(a, s);
        lemma_mantissa_at_units(b, s);
        let x = mantissa_at(a, s);
        let y = mantissa_at(b, s);
        assert((x - y) * p == x * p - y * p) by (nonlinear_arith);
    }
}

/// A fixed-point decimal number `mantissa / 10^scale`, with a 96-bit mantissa
/// and at most 28 digits after the point, as `rust_decimal` holds it.
#[derive(Clone, Copy, Debug)]
pub struct Decimal {
    mantissa: i128,
    scale: u32,
}

impl View for Decimal {
    type V = DecimalModel;

    closed spec fn view(&self) -> DecimalModel {
        DecimalModel { mantissa: self.mantissa as int, scale: self.scale as nat }
    }
}

/// Calls `rust_decimal::Decimal::cmp` on the two decimals; claims that the order
/// it returns is the order of their values.
#[verifier::external_body]
fn compare_values(a: &Decimal, b: &Decimal) -> (r: i8)
    requires
        a@.wf(),
        b@.wf(),
    ensures
        r == sign_of_difference(a@.units(), b@.units()),
{
    let x = rust_decimal::Decimal::from_i128_with_scale(a.mantissa, a.scale);
    let y = rust_decimal::Decimal::from_i128_with_scale(b.mantissa, b.scale);
    match x.cmp(&y) {
        core::cmp::Ordering::Less => -1,
        core::cmp::Ordering::Equal => 0,
        core::cmp::Ordering::Greater => 1,
    }
}

/// Calls `rust_decimal::Decimal::checked_sub`. Claims: where the exact difference
/// fits in 96 bits it is returned as `exact_difference` writes it; otherwise the
/// result is `decimal_difference` of the operands (overflow, or a rounded value);
/// any decimal it returns is within range; and taking a quantity that is not
/// negative from one at least as large never gives a negative result. Of a rounded
/// result nothing more is claimed: in particular not that it stays at most `a`.
#[verifier::external_body]
fn checked_sub_values(a: &Decimal, b: &Decimal) -> (r: Option<Decimal>)
    requires
        a@.wf(),
        b@.wf(),
    ensures
        exact_sub_fits(a@, b@) ==> r is Some,
        r matches Some(d) ==> exact_sub_fits(a@, b@) ==> d@ == exact_difference(a@, b@),
        !exact_sub_fits(a@, b@) ==> (r is None <==> decimal_difference(a@, b@) is None),
        !exact_sub_fits(a@, b@) ==> (r matches Some(d) ==> decimal_difference(a@, b@) == Some(d@)),
        r matches Some(d) ==> d@.wf(),
        r matches Some(d) ==> (0 <= b@.units() <= a@.units() ==> d@.mantissa >= 0),
{
    let x = rust_decimal::Decimal::from_i128_with_scale(a.mantissa, a.scale);
    let y = rust_decimal::Decimal::from_i128_with_scale(b.mantissa, b.scale);
    match x.checked_sub(y) {
        Some(d) => Some(Decimal { mantissa: d.mantissa(), scale: d.scale() }),
        None => None,
    }
}

/// The decimal digits of `n`, most significant first; none for zero.
pub open spec fn digits(n: nat) -> Seq<char>
    decreases n,
{
    if n == 0 {
        seq![]
    } else {
        digits(n / 10) + seq![((48 + n % 10) as u8) as char]
    }
}

/// How an integer is written: an optional minus sign and its digits.
pub open spec fn integer_text(n: int) -> Seq<char> {
    if n == 0 {
        seq!['0']
    } else if n < 0 {
        seq!['-'] + digits((-n) as nat)
    } else {
        digits(n as nat)
    }
}

/// How a decimal is written: an optional minus sign, the whole part ("0" when it
/// has no digits), and where the scale is not zero a point and exactly `scale`
/// digits after it.
pub open spec fn decimal_text(d: DecimalModel) -> Seq<char> {
    let magnitude = if d.mantissa < 0 { -d.mantissa } else { d.mantissa };
    let ds = digits(magnitude as nat);
    let padded = if ds.len() < d.scale {
        Seq::new((d.scale - ds.len()) as nat, |i: int| '0') + ds
    } else {
        ds
    };
    let whole = padded.subrange(0, padded.len() - d.scale);
    let int_part = if whole.len() == 0 {
        seq!['0']
    } else {
        whole
    };
    let body = if d.scale == 0 {
        int_part
    } else {
        int_part + seq!['.'] + padded.subrange(padded.len() - d.scale, padded.len() as int)
    };
    if d.mantissa < 0 {
        seq!['-'] + body
    } else {
        body
    }
}

/// Calls `rust_decimal::Decimal`'s `Display`; claims that it writes the decimal as
/// `decimal_text` says.
#[verifier::external_body]
fn display_value(a: &Decimal) -> (s: String)
    requires
        a@.wf(),
    ensures
        s@ == decimal_text(a@),
{
    format!("{}", rust_decimal::Decimal::from_i128_with_scale(a.mantissa, a.scale))
}

impl Decimal {
    #[verifier::type_invariant]
    pub closed spec fn inv(self) -> bool {
        self@.wf()
    }

    /// `num / 10^scale`.
    pub fn new(num: i64, scale: u32) -> (d: Decimal)
        requires
            scale <= MAX_SCALE,
        ensures
            d@ == (DecimalModel { mantissa: num as int, scale: scale as nat }),
    {
        Decimal { mantissa: num as i128, scale }
    }

    /// `num / 10^scale` for a mantissa of up to 96 bits.
    pub fn from_i128_with_scale(num: i128, scale: u32) -> (d: Decimal)
        requires
            scale <= MAX_SCALE,
            -MAX_MANTISSA <= num <= MAX_MANTISSA,
        ensures
            d@ == (DecimalModel { mantissa: num as int, scale: scale as nat }),
    {
        Decimal { mantissa: num, scale }
    }

    pub fn mantissa(&self) -> (m: i128)
        ensures
            m == self@.mantissa,
    {
        self.mantissa
    }

    pub fn scale(&self) -> (s: u32)
        ensures
            s == self@.scale,
    {
        self.scale
    }

    pub fn is_zero(&self) -> (b: bool)
        ensures
            b == (self@.units() == 0),
    {
        proof {
            use_type_invariant(self);
            lemma_units_sign(self@);
        }
        self.mantissa == 0
    }

    /// Strictly above zero.
    pub fn is_positive(&self) -> (b: bool)
        ensures
            b == (self@.units() > 0),
    {
        proof {
            use_type_invariant(self);
            lemma_units_sign(self@);
        }
        self.mantissa > 0
    }

    /// The decimal written out, as `rust_decimal` writes it.
    pub fn to_text(&self) -> (s: String)
        ensures
            s@ == decimal_text(self@),
    {
        proof {
            use_type_invariant(self);
        }
        display_value(self)
    }

    /// -1, 0 or 1 as `self` is below, equal to or above `other` in value.
    pub fn compare(&self, other: &Decimal) -> (r: i8)
        ensures
            r == sign_of_difference(self@.units(), other@.units()),
    {
        proof {
            use_type_invariant(self);
            use_type_invariant(other);
        }
        compare_values(self, other)
    }

    /// `self - other`, or `None` where the difference overflows.
    pub fn checked_sub(&self, other: &Decimal) -> (r: Option<Decimal>)
        ensures
            r matches Some(d) ==> checked_difference(self@, other@) == Some(d@),
            r is None ==> checked_difference(self@, other@) is None,
            r matches Some(d) ==> (0 <= other@.units() <= self@.units() ==> d@.units() >= 0),
    {
        proof {
            use_type_invariant(self);
            use_type_invariant(other);
        }
        let r = checked_sub_values(self, other);
        proof {
            if let Some(d) = r {
                lemma_units_sign(d@);
            }
        }
        r
    }
}

impl PartialEq for Decimal {
    fn eq(&self, other: &Decimal) -> (r: bool) {
        self.compare(other) == 0
    }
}

impl vstd::std_specs::cmp::PartialEqSpecImpl for Decimal {
    open spec fn obeys_eq_spec() -> bool {
        true
    }

    open spec fn eq_spec(&self, other: &Decimal) -> bool {
        self@.units() == other@.units()
    }
}

impl Eq for Decimal {}

} // verus!
