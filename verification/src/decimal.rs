//! Exact decimal quantities: a signed 96-bit mantissa together with a
//! power-of-ten scale, the representation that financial quantities
//! round-trip through without loss.
//!
//! The mathematical value of a quantity is `mantissa / 10^scale`; contracts
//! state it as the integer `val`, the value normalized to the largest scale,
//! so that sums of quantities are plain integer sums.

use vstd::prelude::*;

verus! {

/// Ten to the given power.
pub open spec fn pow10(e: nat) -> int
    decreases e,
{
    if e == 0 {
        1
    } else {
        10 * pow10((e - 1) as nat)
    }
}

/// One more than the largest mantissa magnitude a quantity can carry
/// (2 to the 96th power).
pub open spec fn p96() -> int {
    0x1000000000000000000000000
}

/// A decimal quantity: `mantissa / 10^scale`.
#[derive(Clone, Copy, Debug, PartialEq, Eq, Structural)]
pub struct Dec {
    pub mantissa: i128,
    pub scale: u32,
}

impl Dec {
    /// A representable quantity: scale at most 28, mantissa within 96 bits.
    pub open spec fn wf(self) -> bool {
        self.scale <= 28 && -p96() < self.mantissa < p96()
    }

    /// The value normalized to scale 28, as an unbounded integer.
    pub open spec fn val(self) -> int {
        self.mantissa * pow10((28 - self.scale) as nat)
    }

    /// Whether the quantity is exactly zero.
    pub fn is_zero(&self) -> (r: bool)
        requires
            self.wf(),
        ensures
            r == (self.val() == 0),
    {
        proof {
            lemma_pow10_pos((28 - self.scale) as nat);
            assert((self.mantissa as int) * pow10((28 - self.scale) as nat) == 0 <==> self.mantissa
                == 0) by (nonlinear_arith)
                requires
                    pow10((28 - self.scale) as nat) > 0,
            ;
        }
        self.mantissa == 0
    }
}

/// The sum of two quantities, aligned to the larger scale. A zero operand
/// leaves the other operand untouched, scale included.
pub open spec fn spec_add(a: Dec, b: Dec) -> Dec {
    if a.mantissa == 0 {
        b
    } else if b.mantissa == 0 {
        a
    } else {
        let s = if a.scale >= b.scale {
            a.scale
        } else {
            b.scale
        };
        let m = a.mantissa * pow10((s - a.scale) as nat) + b.mantissa * pow10((s - b.scale) as nat);
        Dec { mantissa: m as i128, scale: s }
    }
}

/// The exact sum is representable: the mantissas aligned to the common
/// scale sum to a 96-bit value.
pub open spec fn add_fits(a: Dec, b: Dec) -> bool {
    a.mantissa == 0 || b.mantissa == 0 || {
        let s = if a.scale >= b.scale {
            a.scale
        } else {
            b.scale
        };
        let m = a.mantissa * pow10((s - a.scale) as nat) + b.mantissa * pow10((s - b.scale) as nat);
        -p96() < m < p96()
    }
}

/// The product of two quantities: mantissas multiplied, scales added.
/// A zero factor gives the zero quantity at scale zero.
pub open spec fn spec_mul(a: Dec, b: Dec) -> Dec {
    if a.mantissa == 0 || b.mantissa == 0 {
        Dec { mantissa: 0 as i128, scale: 0 as u32 }
    } else {
        Dec { mantissa: (a.mantissa * b.mantissa) as i128, scale: (a.scale + b.scale) as u32 }
    }
}

/// The exact product is representable: scales sum to at most 28 and the
/// mantissa product stays within 96 bits.
pub open spec fn mul_fits(a: Dec, b: Dec) -> bool {
    a.mantissa == 0 || b.mantissa == 0 || {
        &&& a.scale + b.scale <= 28
        &&& -p96() < a.mantissa * b.mantissa < p96()
    }
}

/// Relies on rust_decimal's addition: with both operands nonzero it aligns
/// the mantissas to the larger scale and adds them, exactly whenever the
/// result fits in 96 bits; a zero operand returns the other operand
/// unchanged.
#[verifier::external_body]
pub fn dec_add(a: Dec, b: Dec) -> (r: Dec)
    requires
        a.wf(),
        b.wf(),
        add_fits(a, b),
    ensures
        r == spec_add(a, b),
{
    let x = rust_decimal::Decimal::from_i128_with_scale(a.mantissa, a.scale);
    let y = rust_decimal::Decimal::from_i128_with_scale(b.mantissa, b.scale);
    let z = x + y;
    Dec { mantissa: z.mantissa(), scale: z.scale() }
}

/// Relies on rust_decimal's multiplication: with both operands nonzero it
/// multiplies the mantissas and adds the scales, exactly whenever the scales
/// sum to at most 28 and the product fits in 96 bits; a zero factor returns
/// the zero decimal.
#[verifier::external_body]
pub fn dec_mul(a: Dec, b: Dec) -> (r: Dec)
    requires
        a.wf(),
        b.wf(),
        mul_fits(a, b),
    ensures
        r == spec_mul(a, b),
{
    let x = rust_decimal::Decimal::from_i128_with_scale(a.mantissa, a.scale);
    let y = rust_decimal::Decimal::from_i128_with_scale(b.mantissa, b.scale);
    let z = x * y;
    Dec { mantissa: z.mantissa(), scale: z.scale() }
}

/// The text that a quantity renders to with exactly two fractional digits.
/// It depends on the mantissa and scale alone.
pub uninterp spec fn two_digit_text_of(mantissa: int, scale: int) -> Seq<char>;

/// Relies on rust_decimal's display formatting with a fixed precision of
/// two: the text is a function of the mantissa and scale alone.
#[verifier::external_body]
pub fn format_two_digits(d: Dec) -> (r: String)
    requires
        d.wf(),
    ensures
        r@ == two_digit_text_of(d.mantissa as int, d.scale as int),
{
    let x = rust_decimal::Decimal::from_i128_with_scale(d.mantissa, d.scale);
    format!("{:.2}", x)
}

/// Ten to the 28th, the largest shift a quantity can need.
pub proof fn lemma_pow10_28()
    ensures
        pow10(28) == 10000000000000000000000000000,
{
    reveal_with_fuel(pow10, 29);
}

/// Ten to the given power, as a machine integer.
pub fn pow10_u128(e: u32) -> (r: u128)
    requires
        e <= 28,
    ensures
        r as int == pow10(e as nat),
{
    let mut r: u128 = 1;
    let mut i: u32 = 0;
    while i < e
        invariant
            i <= e,
            e <= 28,
            r as int == pow10(i as nat),
        decreases e - i,
    {
        proof {
            lemma_pow10_28();
            lemma_pow10_mono((i + 1) as nat, 28);
            lemma_pow10_pos(i as nat);
        }
        r = r * 10;
        i = i + 1;
    }
    r
}

/// Ten to any power is positive.
pub proof fn lemma_pow10_pos(e: nat)
    ensures
        pow10(e) >= 1,
    decreases e,
{
    if e > 0 {
        lemma_pow10_pos((e - 1) as nat);
    }
}

/// Ten to a larger power is no smaller.
pub proof fn lemma_pow10_mono(a: nat, b: nat)
    requires
        a <= b,
    ensures
        pow10(a) <= pow10(b),
    decreases b,
{
    if a < b {
        lemma_pow10_pos(a);
        lemma_pow10_mono(a, (b - 1) as nat);
    }
}

/// Powers of ten multiply by adding exponents.
pub proof fn lemma_pow10_adds(a: nat, b: nat)
    ensures
        pow10(a) * pow10(b) == pow10(a + b),
    decreases a,
{
    if a == 0 {
    } else {
        lemma_pow10_adds((a - 1) as nat, b);
        assert(10 * pow10((a - 1) as nat) * pow10(b) == 10 * (pow10((a - 1) as nat) * pow10(b)))
            by (nonlinear_arith);
    }
}

/// A representable sum is the integer sum of the values.
pub proof fn lemma_add_exact(a: Dec, b: Dec)
    requires
        a.wf(),
        b.wf(),
        add_fits(a, b),
    ensures
        spec_add(a, b).wf(),
        spec_add(a, b).val() == a.val() + b.val(),
        spec_add(a, b).scale <= if a.scale >= b.scale {
            a.scale
        } else {
            b.scale
        },
{
    if a.mantissa == 0 {
        lemma_pow10_pos((28 - a.scale) as nat);
        assert(a.val() == 0) by (nonlinear_arith)
            requires
                a.mantissa == 0,
                a.val() == a.mantissa * pow10((28 - a.scale) as nat),
        ;
    } else if b.mantissa == 0 {
        assert(b.val() == 0) by (nonlinear_arith)
            requires
                b.mantissa == 0,
                b.val() == b.mantissa * pow10((28 - b.scale) as nat),
        ;
    } else {
        let s = if a.scale >= b.scale {
            a.scale
        } else {
            b.scale
        };
        let ea = (s - a.scale) as nat;
        let eb = (s - b.scale) as nat;
        let e28 = (28 - s) as nat;
        let m = a.mantissa * pow10(ea) + b.mantissa * pow10(eb);
        lemma_pow10_adds(ea, e28);
        lemma_pow10_adds(eb, e28);
        assert((a.mantissa * pow10(ea) + b.mantissa * pow10(eb)) * pow10(e28) == a.mantissa * (
        pow10(ea) * pow10(e28)) + b.mantissa * (pow10(eb) * pow10(e28))) by (nonlinear_arith);
    }
}

/// A sum whose value stays under a cap that itself stays under the largest
/// representable magnitude at the operands' scales is representable.
pub proof fn lemma_add_fits_from_bound(x: Dec, d: Dec, s: int, cap: int)
    requires
        x.wf(),
        d.wf(),
        x.scale <= s,
        d.scale <= s,
        0 <= s <= 28,
        -cap <= x.val() + d.val() <= cap,
        cap < p96() * pow10((28 - s) as nat),
    ensures
        add_fits(x, d),
{
    if x.mantissa != 0 && d.mantissa != 0 {
        let sm = if x.scale >= d.scale {
            x.scale
        } else {
            d.scale
        };
        let ex = (sm - x.scale) as nat;
        let ed = (sm - d.scale) as nat;
        let e28 = (28 - sm) as nat;
        let m = x.mantissa * pow10(ex) + d.mantissa * pow10(ed);
        lemma_pow10_adds(ex, e28);
        lemma_pow10_adds(ed, e28);
        assert(m * pow10(e28) == x.val() + d.val()) by (nonlinear_arith)
            requires
                pow10(ex) * pow10(e28) == pow10((ex + e28) as nat),
                pow10(ed) * pow10(e28) == pow10((ed + e28) as nat),
                x.val() == x.mantissa * pow10((ex + e28) as nat),
                d.val() == d.mantissa * pow10((ed + e28) as nat),
                m == x.mantissa * pow10(ex) + d.mantissa * pow10(ed),
        ;
        lemma_pow10_mono((28 - s) as nat, e28);
        lemma_pow10_pos(e28);
        assert(-p96() * pow10(e28) <= m * pow10(e28) <= p96() * pow10(e28)) by (nonlinear_arith)
            requires
                m * pow10(e28) == x.val() + d.val(),
                -cap <= x.val() + d.val() <= cap,
                cap < p96() * pow10((28 - s) as nat),
                pow10((28 - s) as nat) <= pow10(e28),
                pow10(e28) >= 1,
        ;
        assert(-p96() < m < p96()) by (nonlinear_arith)
            requires
                -p96() * pow10(e28) <= m * pow10(e28) <= p96() * pow10(e28),
                pow10(e28) >= 1,
                m * pow10(e28) == x.val() + d.val(),
                -cap <= x.val() + d.val() <= cap,
                cap < p96() * pow10((28 - s) as nat),
                pow10((28 - s) as nat) <= pow10(e28),
        ;
    }
}

/// A representable product is the integer product of the values, scaled
/// back down by ten to the 28th.
pub proof fn lemma_mul_exact(a: Dec, b: Dec)
    requires
        a.wf(),
        b.wf(),
        mul_fits(a, b),
    ensures
        spec_mul(a, b).wf(),
        spec_mul(a, b).val() * pow10(28) == a.val() * b.val(),
{
    if a.mantissa == 0 || b.mantissa == 0 {
        assert(a.mantissa == 0 ==> a.val() == 0) by (nonlinear_arith)
            requires
                a.val() == a.mantissa * pow10((28 - a.scale) as nat),
        ;
        assert(b.mantissa == 0 ==> b.val() == 0) by (nonlinear_arith)
            requires
                b.val() == b.mantissa * pow10((28 - b.scale) as nat),
        ;
        assert(a.val() == 0 || b.val() == 0 ==> a.val() * b.val() == 0) by (nonlinear_arith);
        assert(spec_mul(a, b).val() == 0) by (nonlinear_arith)
            requires
                spec_mul(a, b).mantissa == 0,
                spec_mul(a, b).val() == spec_mul(a, b).mantissa * pow10(
                    (28 - spec_mul(a, b).scale) as nat,
                ),
        ;
        assert(spec_mul(a, b).val() * pow10(28) == 0) by (nonlinear_arith)
            requires
                spec_mul(a, b).val() == 0,
        ;
    } else {
        let ea = (28 - a.scale) as nat;
        let eb = (28 - b.scale) as nat;
        let er = (28 - (a.scale + b.scale)) as nat;
        let ma = a.mantissa as int;
        let mb = b.mantissa as int;
        assert(er + 28 == ea + eb);
        lemma_pow10_adds(er, 28);
        lemma_pow10_adds(ea, eb);
        assert(pow10(er) * pow10(28) == pow10(ea) * pow10(eb));
        let r = spec_mul(a, b);
        assert(r.mantissa == ma * mb);
        assert(r.scale == a.scale + b.scale);
        assert(r.val() == (ma * mb) * pow10(er));
        assert(((ma * mb) * pow10(er)) * pow10(28) == (ma * pow10(ea)) * (mb * pow10(eb)))
            by (nonlinear_arith)
            requires
                pow10(er) * pow10(28) == pow10(ea) * pow10(eb),
        ;
    }
}

} // verus!
