//! Exact rational scalar.
//!
//! `Rat` is a signed rational held as an `i64` numerator over a positive
//! `i64` denominator. Arithmetic is exact: each operation computes the
//! result in wide integers, divides out a common factor, and returns
//! `None` only when the result cannot be brought back into `i64` range.
//! The mathematical value of a `Rat` is its view `RatV`, an unbounded
//! numerator/denominator pair compared by cross-multiplication.

use vstd::prelude::*;

verus! {

use vstd::arithmetic::div_mod::{
    lemma_fundamental_div_mod,
    lemma_mod_multiples_vanish,
    lemma_mod_self_0,
    lemma_small_mod,
    lemma_div_nonincreasing,
    lemma_div_multiples_vanish,
    lemma_div_pos_is_pos,
};
use vstd::arithmetic::mul::lemma_mul_equality_converse;

/// Mathematical value of a rational number: `n / d` with `d >= 1`.
pub ghost struct RatV {
    pub n: int,
    pub d: int,
}

/// A rational value is well formed when its denominator is positive.
pub open spec fn rat_wf(a: RatV) -> bool {
    a.d >= 1
}

/// Two rational values denote the same number (cross-multiplication).
pub open spec fn rat_eq(a: RatV, b: RatV) -> bool {
    a.n * b.d == b.n * a.d
}

/// `a < b` for well-formed rational values.
pub open spec fn rat_lt(a: RatV, b: RatV) -> bool {
    a.n * b.d < b.n * a.d
}

/// `a <= b` for well-formed rational values.
pub open spec fn rat_le(a: RatV, b: RatV) -> bool {
    a.n * b.d <= b.n * a.d
}

pub open spec fn rat_add(a: RatV, b: RatV) -> RatV {
    RatV { n: a.n * b.d + b.n * a.d, d: a.d * b.d }
}

pub open spec fn rat_sub(a: RatV, b: RatV) -> RatV {
    RatV { n: a.n * b.d - b.n * a.d, d: a.d * b.d }
}

pub open spec fn rat_mul(a: RatV, b: RatV) -> RatV {
    RatV { n: a.n * b.n, d: a.d * b.d }
}

pub open spec fn rat_neg(a: RatV) -> RatV {
    RatV { n: -a.n, d: a.d }
}

/// Reciprocal, with the sign moved to the numerator.
pub open spec fn rat_inv(a: RatV) -> RatV {
    if a.n >= 0 {
        RatV { n: a.d, d: a.n }
    } else {
        RatV { n: -a.d, d: -a.n }
    }
}

pub open spec fn rat_div(a: RatV, b: RatV) -> RatV {
    rat_mul(a, rat_inv(b))
}

/// The rational value of an integer.
pub open spec fn rat_int(i: int) -> RatV {
    RatV { n: i, d: 1 }
}

/// The rational value of a plain fraction, sign normalized onto the
/// numerator. Meaningful for `d != 0`.
pub open spec fn rat_frac(n: int, d: int) -> RatV {
    if d >= 0 {
        RatV { n: n, d: d }
    } else {
        RatV { n: -n, d: -d }
    }
}

/// A rational value that fits back into the `i64` representation.
pub open spec fn rat_fits(a: RatV) -> bool {
    -0x7fff_ffff_ffff_ffff <= a.n <= 0x7fff_ffff_ffff_ffff && 1 <= a.d <= 0x7fff_ffff_ffff_ffff
}

/// An exact rational number in `i64` range.
#[derive(Clone, Copy, Debug)]
pub struct Rat {
    num: i64,
    den: i64,
}

impl View for Rat {
    type V = RatV;

    closed spec fn view(&self) -> RatV {
        RatV { n: self.num as int, d: self.den as int }
    }
}

/// Products of two values in symmetric `i64` range stay well inside
/// `i128` range.
pub proof fn lemma_prod_in_range(a: int, b: int) by (nonlinear_arith)
    requires
        -0x7fff_ffff_ffff_ffff <= a <= 0x7fff_ffff_ffff_ffff,
        -0x7fff_ffff_ffff_ffff <= b <= 0x7fff_ffff_ffff_ffff,
    ensures
        -0x3fff_ffff_ffff_ffff_0000_0000_0000_0001 <= a * b
            <= 0x3fff_ffff_ffff_ffff_0000_0000_0000_0001,
{
}

/// The greatest common divisor, by Euclid's recursion.
pub open spec fn gcd(a: nat, b: nat) -> nat
    decreases b,
{
    if b == 0 {
        a
    } else {
        gcd(b, a % b)
    }
}

/// The gcd is positive when an argument is, and divides both arguments.
pub proof fn lemma_gcd_divides(a: nat, b: nat)
    requires
        a >= 1 || b >= 1,
    ensures
        gcd(a, b) >= 1,
        a as int % gcd(a, b) as int == 0,
        b as int % gcd(a, b) as int == 0,
    decreases b,
{
    if b == 0 {
        lemma_mod_self_0(a as int);
        lemma_small_mod(0nat, a as nat);
    } else {
        lemma_gcd_divides(b, a % b);
        let g = gcd(b, a % b) as int;
        lemma_fundamental_div_mod(a as int, b as int);
        let q = a as int / b as int;
        assert(a as int == b as int * q + (a % b) as int);
        lemma_fundamental_div_mod(b as int, g);
        assert(b as int == g * (b as int / g));
        assert(b as int * q == g * ((b as int / g) * q)) by (nonlinear_arith)
            requires
                b as int == g * (b as int / g),
        ;
        lemma_mod_multiples_vanish((b as int / g) * q, (a % b) as int, g);
        assert(a as int % g == 0);
    }
}

/// The canonical representative of a rational value: numerator and
/// denominator divided by their greatest common divisor. Every stored
/// `Rat` holds exactly this representative.
pub open spec fn rat_canon(v: RatV) -> RatV
    recommends
        rat_wf(v),
{
    let g = gcd(
        (if v.n < 0 {
            -v.n
        } else {
            v.n
        }) as nat,
        v.d as nat,
    ) as int;
    RatV { n: v.n / g, d: v.d / g }
}

/// Canonicalizing keeps the value and well-formedness and never grows
/// the representation, so whatever fits keeps fitting.
pub proof fn lemma_rat_canon(v: RatV)
    requires
        rat_wf(v),
    ensures
        rat_wf(rat_canon(v)),
        rat_eq(rat_canon(v), v),
        rat_fits(v) ==> rat_fits(rat_canon(v)),
{
    let un = if v.n < 0 {
        -v.n
    } else {
        v.n
    };
    lemma_gcd_divides(un as nat, v.d as nat);
    let g = gcd(un as nat, v.d as nat) as int;
    lemma_fundamental_div_mod(un, g);
    lemma_fundamental_div_mod(v.d, g);
    let qn = un / g;
    let qd = v.d / g;
    assert(un == g * qn);
    assert(v.d == g * qd);
    lemma_div_nonincreasing(un, g);
    lemma_div_nonincreasing(v.d, g);
    lemma_div_pos_is_pos(un, g);
    lemma_div_pos_is_pos(v.d, g);
    assert(qd >= 1) by (nonlinear_arith)
        requires
            v.d == g * qd,
            v.d >= 1,
            g >= 1,
    ;
    if v.n < 0 {
        assert(v.n == g * (-qn)) by (nonlinear_arith)
            requires
                un == g * qn,
                v.n == -un,
        ;
        lemma_div_multiples_vanish(-qn, g);
        assert(v.n / g == -qn);
    }
    assert(rat_canon(v).n * v.d == v.n * rat_canon(v).d) by (nonlinear_arith)
        requires
            un == g * qn,
            v.d == g * qd,
            rat_canon(v).d == qd,
            rat_canon(v).n == if v.n < 0 {
                -qn
            } else {
                qn
            },
            v.n == if v.n < 0 {
                -un
            } else {
                un
            },
    ;
}

/// A divisor of both inputs, at least one of which must be positive:
/// exactly the greatest common divisor the normalizing constructor
/// reduces by.
fn gcd_u128(a: u128, b: u128) -> (g: u128)
    requires
        a >= 1 || b >= 1,
    ensures
        g as nat == gcd(a as nat, b as nat),
        g >= 1,
        a as int % g as int == 0,
        b as int % g as int == 0,
{
    let mut x: u128 = a;
    let mut y: u128 = b;
    while y != 0
        invariant
            x >= 1 || y >= 1,
            gcd(x as nat, y as nat) == gcd(a as nat, b as nat),
        decreases y,
    {
        let r: u128 = x % y;
        proof {
            assert(gcd(y as nat, r as nat) == gcd(x as nat, y as nat));
        }
        x = y;
        y = r;
    }
    proof {
        assert(gcd(x as nat, 0nat) == x as nat);
        lemma_gcd_divides(a as nat, b as nat);
    }
    x
}

impl Rat {
    /// Representation invariant: positive denominator and a numerator
    /// whose negation still fits, so negation is total.
    #[verifier::type_invariant]
    pub open spec fn inv(self) -> bool {
        rat_wf(self@) && -0x7fff_ffff_ffff_ffff <= self@.n
    }

    /// Normalizing constructor from wide integers: reduces by the
    /// greatest common divisor and returns the canonical representative
    /// exactly when it fits `i64` range.
    fn make(n: i128, d: i128) -> (r: Option<Rat>)
        requires
            1 <= d,
            i128::MIN < n,
        ensures
            r matches Some(c) ==> c@ == rat_canon(RatV { n: n as int, d: d as int }),
            r is Some <==> rat_fits(rat_canon(RatV { n: n as int, d: d as int })),
            r matches Some(c) ==> rat_eq(c@, RatV { n: n as int, d: d as int }),
            rat_fits(RatV { n: n as int, d: d as int }) ==> r is Some,
    {
        let un: u128 = if n < 0 {
            (-n) as u128
        } else {
            n as u128
        };
        let ud: u128 = d as u128;
        let g: u128 = gcd_u128(un, ud);
        let rn: u128 = un / g;
        let rd: u128 = ud / g;
        proof {
            lemma_fundamental_div_mod(un as int, g as int);
            lemma_fundamental_div_mod(ud as int, g as int);
            assert(un as int == g as int * rn as int);
            assert(ud as int == g as int * rd as int);
            assert(rd >= 1) by (nonlinear_arith)
                requires
                    ud as int == g as int * rd as int,
                    ud >= 1,
                    g >= 1,
            ;
            assert(un as int * rd as int == rn as int * ud as int) by (nonlinear_arith)
                requires
                    un as int == g as int * rn as int,
                    ud as int == g as int * rd as int,
            ;
            lemma_div_nonincreasing(un as int, g as int);
            lemma_div_nonincreasing(ud as int, g as int);
            let nv = RatV { n: n as int, d: d as int };
            assert(un as int == if nv.n < 0 {
                -nv.n
            } else {
                nv.n
            });
            lemma_div_multiples_vanish(rd as int, g as int);
            assert(rat_canon(nv).d == rd as int);
            if n >= 0 {
                lemma_div_multiples_vanish(rn as int, g as int);
                assert(rat_canon(nv).n == rn as int);
            } else {
                assert(n as int == g as int * (-(rn as int))) by (nonlinear_arith)
                    requires
                        un as int == g as int * rn as int,
                        n as int == -(un as int),
                ;
                lemma_div_multiples_vanish(-(rn as int), g as int);
                assert(rat_canon(nv).n == -(rn as int));
            }
        }
        if rn <= i64::MAX as u128 && rd <= i64::MAX as u128 {
            let num: i64 = if n < 0 {
                -(rn as i64)
            } else {
                rn as i64
            };
            let res = Rat { num, den: rd as i64 };
            proof {
                if n < 0 {
                    assert(un as int == -(n as int));
                    assert(num as int == -(rn as int));
                    assert((-(rn as int)) * (d as int) == (n as int) * (rd as int))
                        by (nonlinear_arith)
                        requires
                            un as int * rd as int == rn as int * ud as int,
                            un as int == -(n as int),
                            ud as int == d as int,
                    ;
                } else {
                    assert(un as int == n as int);
                    assert((rn as int) * (d as int) == (n as int) * (rd as int))
                        by (nonlinear_arith)
                        requires
                            un as int * rd as int == rn as int * ud as int,
                            un as int == n as int,
                            ud as int == d as int,
                    ;
                }
                assert(rat_eq(res@, RatV { n: n as int, d: d as int }));
                assert(res@ == rat_canon(RatV { n: n as int, d: d as int }));
            }
            Some(res)
        } else {
            proof {
                assert(!rat_fits(rat_canon(RatV { n: n as int, d: d as int })));
            }
            None
        }
    }

    /// The rational `i`. The extreme negative `i64` is excluded so that
    /// every `Rat` can be negated.
    pub fn from_int(i: i64) -> (r: Rat)
        requires
            -0x7fff_ffff_ffff_ffff <= i,
        ensures
            r@ == rat_int(i as int),
    {
        Rat { num: i, den: 1 }
    }

    /// Exact sum: the canonical representative of the sum, or `None`
    /// exactly when that representative leaves `i64` range.
    pub fn add(&self, other: &Rat) -> (r: Option<Rat>)
        ensures
            r matches Some(c) ==> c@ == rat_canon(rat_add(self@, other@)),
            r is Some <==> rat_fits(rat_canon(rat_add(self@, other@))),
            r matches Some(c) ==> rat_eq(c@, rat_add(self@, other@)),
            rat_fits(rat_add(self@, other@)) ==> r is Some,
    {
        proof {
            use_type_invariant(*self);
            use_type_invariant(*other);
            lemma_prod_in_range(self.num as int, other.den as int);
            lemma_prod_in_range(other.num as int, self.den as int);
            lemma_prod_in_range(self.den as int, other.den as int);
        }
        let n: i128 = self.num as i128 * other.den as i128 + other.num as i128
            * self.den as i128;
        let d: i128 = self.den as i128 * other.den as i128;
        proof {
            assert(d >= 1) by (nonlinear_arith)
                requires
                    self.den as int >= 1,
                    other.den as int >= 1,
                    d as int == self.den as int * other.den as int,
            ;
            assert(RatV { n: n as int, d: d as int } == rat_add(self@, other@));
        }
        Self::make(n, d)
    }

    /// Exact difference: the canonical representative of the
    /// difference, or `None` exactly when it leaves `i64` range.
    pub fn sub(&self, other: &Rat) -> (r: Option<Rat>)
        ensures
            r matches Some(c) ==> c@ == rat_canon(rat_sub(self@, other@)),
            r is Some <==> rat_fits(rat_canon(rat_sub(self@, other@))),
            r matches Some(c) ==> rat_eq(c@, rat_sub(self@, other@)),
            rat_fits(rat_sub(self@, other@)) ==> r is Some,
    {
        proof {
            use_type_invariant(*self);
            use_type_invariant(*other);
            lemma_prod_in_range(self.num as int, other.den as int);
            lemma_prod_in_range(other.num as int, self.den as int);
            lemma_prod_in_range(self.den as int, other.den as int);
        }
        let n: i128 = self.num as i128 * other.den as i128 - other.num as i128
            * self.den as i128;
        let d: i128 = self.den as i128 * other.den as i128;
        proof {
            assert(d >= 1) by (nonlinear_arith)
                requires
                    self.den as int >= 1,
                    other.den as int >= 1,
                    d as int == self.den as int * other.den as int,
            ;
            assert(RatV { n: n as int, d: d as int } == rat_sub(self@, other@));
        }
        Self::make(n, d)
    }

    /// Exact product: the canonical representative of the product, or
    /// `None` exactly when it leaves `i64` range.
    pub fn mul(&self, other: &Rat) -> (r: Option<Rat>)
        ensures
            r matches Some(c) ==> c@ == rat_canon(rat_mul(self@, other@)),
            r is Some <==> rat_fits(rat_canon(rat_mul(self@, other@))),
            r matches Some(c) ==> rat_eq(c@, rat_mul(self@, other@)),
            rat_fits(rat_mul(self@, other@)) ==> r is Some,
    {
        proof {
            use_type_invariant(*self);
            use_type_invariant(*other);
            lemma_prod_in_range(self.num as int, other.num as int);
            lemma_prod_in_range(self.den as int, other.den as int);
        }
        let n: i128 = self.num as i128 * other.num as i128;
        let d: i128 = self.den as i128 * other.den as i128;
        proof {
            assert(d >= 1) by (nonlinear_arith)
                requires
                    self.den as int >= 1,
                    other.den as int >= 1,
                    d as int == self.den as int * other.den as int,
            ;
            assert(RatV { n: n as int, d: d as int } == rat_mul(self@, other@));
        }
        Self::make(n, d)
    }

    /// Exact quotient: the canonical representative of the quotient, or
    /// `None` exactly when the divisor is zero or it leaves `i64` range.
    pub fn div(&self, other: &Rat) -> (r: Option<Rat>)
        ensures
            r matches Some(c) ==> c@ == rat_canon(rat_div(self@, other@)),
            r is Some <==> other@.n != 0 && rat_fits(rat_canon(rat_div(self@, other@))),
            r matches Some(c) ==> other@.n != 0 && rat_eq(c@, rat_div(self@, other@)),
            other@.n != 0 && rat_fits(rat_div(self@, other@)) ==> r is Some,
    {
        proof {
            use_type_invariant(*self);
            use_type_invariant(*other);
            lemma_prod_in_range(self.num as int, other.den as int);
            lemma_prod_in_range(self.den as int, other.num as int);
        }
        if other.num == 0 {
            return None;
        }
        let n: i128 = self.num as i128 * other.den as i128;
        let d: i128 = self.den as i128 * other.num as i128;
        if other.num < 0 {
            proof {
                assert(-d >= 1) by (nonlinear_arith)
                    requires
                        self.den as int >= 1,
                        other.num as int <= -1,
                        d as int == self.den as int * other.num as int,
                ;
                assert(-(self@.n * other@.d) == self@.n * (-other@.d) && -(self@.d * other@.n)
                    == self@.d * (-other@.n)) by (nonlinear_arith);
                assert(RatV { n: -(n as int), d: -(d as int) } == rat_div(self@, other@));
            }
            Self::make(-n, -d)
        } else {
            proof {
                assert(d >= 1) by (nonlinear_arith)
                    requires
                        self.den as int >= 1,
                        other.num as int >= 1,
                        d as int == self.den as int * other.num as int,
                ;
                assert(RatV { n: n as int, d: d as int } == rat_div(self@, other@));
            }
            Self::make(n, d)
        }
    }

    /// Exact negation; total because the representation keeps the
    /// numerator symmetric around zero.
    pub fn neg(&self) -> (r: Rat)
        ensures
            r@ == rat_neg(self@),
    {
        proof {
            use_type_invariant(*self);
        }
        Rat { num: -self.num, den: self.den }
    }

    /// Exact order test.
    pub fn lt(&self, other: &Rat) -> (r: bool)
        ensures
            r == rat_lt(self@, other@),
    {
        proof {
            use_type_invariant(*self);
            use_type_invariant(*other);
            lemma_prod_in_range(self.num as int, other.den as int);
            lemma_prod_in_range(other.num as int, self.den as int);
        }
        (self.num as i128) * (other.den as i128) < (other.num as i128) * (self.den as i128)
    }

    /// Exact order test.
    pub fn le(&self, other: &Rat) -> (r: bool)
        ensures
            r == rat_le(self@, other@),
    {
        proof {
            use_type_invariant(*self);
            use_type_invariant(*other);
            lemma_prod_in_range(self.num as int, other.den as int);
            lemma_prod_in_range(other.num as int, self.den as int);
        }
        (self.num as i128) * (other.den as i128) <= (other.num as i128) * (self.den as i128)
    }

    /// Whether the value is exactly zero.
    pub fn is_zero(&self) -> (r: bool)
        ensures
            r == (self@.n == 0),
    {
        self.num == 0
    }

    /// The numerator of the held representation.
    pub fn num(&self) -> (n: i64)
        ensures
            n == self@.n,
            -0x7fff_ffff_ffff_ffff <= n,
    {
        proof {
            use_type_invariant(*self);
        }
        self.num
    }

    /// The positive denominator of the held representation.
    pub fn den(&self) -> (d: i64)
        ensures
            d == self@.d,
            1 <= d,
    {
        proof {
            use_type_invariant(*self);
        }
        self.den
    }

    /// The rational `n / d` in canonical form; `None` when `d` is zero
    /// or the canonical fraction leaves `i64` range.
    pub fn new(n: i64, d: i64) -> (r: Option<Rat>)
        ensures
            r matches Some(c) ==> d != 0 && c@ == rat_canon(rat_frac(n as int, d as int)),
            r matches Some(c) ==> d != 0 && rat_eq(c@, rat_frac(n as int, d as int)),
            d != 0 && n > i64::MIN && d > i64::MIN ==> r is Some,
    {
        if d == 0 {
            return None;
        }
        if d < 0 {
            if n == i64::MIN || d == i64::MIN {
                return None;
            }
            proof {
                assert(RatV { n: (-(n as i128)) as int, d: (-(d as i128)) as int } == rat_frac(
                    n as int,
                    d as int,
                ));
            }
            Self::make(-(n as i128), -(d as i128))
        } else {
            if n == i64::MIN {
                return None;
            }
            proof {
                assert(RatV { n: (n as i128) as int, d: (d as i128) as int } == rat_frac(
                    n as int,
                    d as int,
                ));
            }
            Self::make(n as i128, d as i128)
        }
    }
}

impl PartialEq for Rat {
    /// Value equality by cross-multiplication: representations may
    /// differ while the numbers are the same.
    fn eq(&self, other: &Rat) -> (r: bool) {
        proof {
            use_type_invariant(*self);
            use_type_invariant(*other);
            lemma_prod_in_range(self.num as int, other.den as int);
            lemma_prod_in_range(other.num as int, self.den as int);
        }
        (self.num as i128) * (other.den as i128) == (other.num as i128) * (self.den as i128)
    }
}

impl vstd::std_specs::cmp::PartialEqSpecImpl for Rat {
    open spec fn obeys_eq_spec() -> bool {
        true
    }

    open spec fn eq_spec(&self, other: &Rat) -> bool {
        rat_eq(self@, other@)
    }
}

/// Value equality is reflexive.
pub proof fn lemma_rat_eq_refl(a: RatV)
    ensures
        rat_eq(a, a),
{
}

/// Value equality is symmetric.
pub proof fn lemma_rat_eq_sym(a: RatV, b: RatV)
    requires
        rat_eq(a, b),
    ensures
        rat_eq(b, a),
{
}

proof fn lemma_rat_eq_trans_scaled(a: RatV, b: RatV, c: RatV) by (nonlinear_arith)
    requires
        a.n * b.d == b.n * a.d,
        b.n * c.d == c.n * b.d,
    ensures
        (a.n * c.d) * b.d == (c.n * a.d) * b.d,
{
}

/// Value equality is transitive; only the middle value needs a nonzero
/// denominator.
pub proof fn lemma_rat_eq_trans(a: RatV, b: RatV, c: RatV)
    requires
        rat_wf(b),
        rat_eq(a, b),
        rat_eq(b, c),
    ensures
        rat_eq(a, c),
{
    lemma_rat_eq_trans_scaled(a, b, c);
    assert(b.d * (a.n * c.d) == b.d * (c.n * a.d)) by (nonlinear_arith)
        requires
            (a.n * c.d) * b.d == (c.n * a.d) * b.d,
    ;
    lemma_mul_equality_converse(b.d, a.n * c.d, c.n * a.d);
}

/// Four factors can be paired either way.
proof fn lemma_mul_shuffle(x: int, y: int, z: int, w: int) by (nonlinear_arith)
    ensures
        (x * y) * (z * w) == (x * z) * (y * w),
{
}

proof fn lemma_add_cong_raw(
    an: int,
    ad: int,
    a2n: int,
    a2d: int,
    bn: int,
    bd: int,
    b2n: int,
    b2d: int,
)
    requires
        an * a2d == a2n * ad,
        bn * b2d == b2n * bd,
    ensures
        (an * bd + bn * ad) * (a2d * b2d) == (a2n * b2d + b2n * a2d) * (ad * bd),
{
    broadcast use vstd::arithmetic::mul::group_mul_is_commutative_and_distributive;

    lemma_mul_shuffle(an, bd, a2d, b2d);
    lemma_mul_shuffle(a2n, ad, bd, b2d);
    lemma_mul_shuffle(a2n, b2d, ad, bd);
    lemma_mul_shuffle(bn, ad, a2d, b2d);
    lemma_mul_shuffle(bn, b2d, ad, a2d);
    lemma_mul_shuffle(b2n, bd, ad, a2d);
    lemma_mul_shuffle(b2n, a2d, ad, bd);
    assert((an * bd) * (a2d * b2d) == (a2n * b2d) * (ad * bd)) by {
        assert((an * bd) * (a2d * b2d) == (an * a2d) * (bd * b2d));
        assert((a2n * ad) * (bd * b2d) == (a2n * b2d) * (ad * bd)) by {
            assert((a2n * ad) * (bd * b2d) == (a2n * bd) * (ad * b2d));
            assert((a2n * b2d) * (ad * bd) == (a2n * ad) * (b2d * bd)) by {
                lemma_mul_shuffle(a2n, b2d, ad, bd);
                assert((a2n * b2d) * (ad * bd) == (a2n * ad) * (b2d * bd)) by (nonlinear_arith);
            }
        }
    }
    assert((bn * ad) * (a2d * b2d) == (b2n * a2d) * (ad * bd)) by {
        assert((bn * ad) * (a2d * b2d) == (bn * b2d) * (ad * a2d)) by (nonlinear_arith);
        assert((b2n * bd) * (ad * a2d) == (b2n * a2d) * (ad * bd)) by (nonlinear_arith);
    }
}

/// Addition respects value equality.
pub proof fn lemma_rat_add_cong(a: RatV, a2: RatV, b: RatV, b2: RatV)
    requires
        rat_eq(a, a2),
        rat_eq(b, b2),
    ensures
        rat_eq(rat_add(a, b), rat_add(a2, b2)),
{
    lemma_add_cong_raw(a.n, a.d, a2.n, a2.d, b.n, b.d, b2.n, b2.d);
}

/// Subtraction respects value equality.
pub proof fn lemma_rat_sub_cong(a: RatV, a2: RatV, b: RatV, b2: RatV)
    requires
        rat_eq(a, a2),
        rat_eq(b, b2),
    ensures
        rat_eq(rat_sub(a, b), rat_sub(a2, b2)),
{
    assert((-b.n) * b2.d == (-b2.n) * b.d) by (nonlinear_arith)
        requires
            b.n * b2.d == b2.n * b.d,
    ;
    lemma_add_cong_raw(a.n, a.d, a2.n, a2.d, -b.n, b.d, -b2.n, b2.d);
    assert(rat_sub(a, b).n == a.n * b.d + (-b.n) * a.d && rat_sub(a2, b2).n == a2.n * b2.d + (
    -b2.n) * a2.d) by (nonlinear_arith);
}

/// Multiplication respects value equality.
pub proof fn lemma_rat_mul_cong(a: RatV, a2: RatV, b: RatV, b2: RatV)
    requires
        rat_eq(a, a2),
        rat_eq(b, b2),
    ensures
        rat_eq(rat_mul(a, b), rat_mul(a2, b2)),
{
    assert((a.n * b.n) * (a2.d * b2.d) == (a2.n * b2.n) * (a.d * b.d)) by (nonlinear_arith)
        requires
            a.n * a2.d == a2.n * a.d,
            b.n * b2.d == b2.n * b.d,
    ;
}

/// Addition of rational values is commutative.
pub proof fn lemma_rat_add_comm(a: RatV, b: RatV) by (nonlinear_arith)
    ensures
        rat_eq(rat_add(a, b), rat_add(b, a)),
{
}

/// Adding and then subtracting the same value is the identity.
pub proof fn lemma_rat_add_sub_cancel(a: RatV, b: RatV) by (nonlinear_arith)
    ensures
        rat_eq(rat_sub(rat_add(a, b), b), a),
{
}

/// Multiplication of rational values is commutative.
pub proof fn lemma_rat_mul_comm(a: RatV, b: RatV) by (nonlinear_arith)
    ensures
        rat_eq(rat_mul(a, b), rat_mul(b, a)),
{
}

/// Strict order respects value equality on its right argument.
pub proof fn lemma_rat_lt_cong(a: RatV, b: RatV, b2: RatV)
    requires
        rat_wf(a),
        rat_wf(b),
        rat_wf(b2),
        rat_eq(b, b2),
    ensures
        rat_lt(a, b) == rat_lt(a, b2),
{
    assert((a.n * b.d < b.n * a.d) == (a.n * b2.d < b2.n * a.d)) by (nonlinear_arith)
        requires
            b.n * b2.d == b2.n * b.d,
            a.d >= 1,
            b.d >= 1,
            b2.d >= 1,
    ;
}

/// Zero is the additive identity.
pub proof fn lemma_rat_add_zero(a: RatV) by (nonlinear_arith)
    ensures
        rat_eq(rat_add(a, rat_int(0)), a),
        rat_eq(rat_add(rat_int(0), a), a),
{
}

/// One is the multiplicative identity.
pub proof fn lemma_rat_mul_one(a: RatV) by (nonlinear_arith)
    ensures
        rat_eq(rat_mul(a, rat_int(1)), a),
        rat_eq(rat_mul(rat_int(1), a), a),
{
}

proof fn lemma_poly_add_assoc(an: int, ad: int, bn: int, bd: int, cn: int, cd: int)
    ensures
        (an * bd + bn * ad) * cd + cn * (ad * bd) == an * (bd * cd) + (bn * cd + cn * bd) * ad,
        (ad * bd) * cd == ad * (bd * cd),
{
    broadcast use vstd::arithmetic::mul::group_mul_is_commutative_and_distributive;

    assert((an * bd + bn * ad) * cd == (an * bd) * cd + (bn * ad) * cd);
    assert((bn * cd + cn * bd) * ad == (bn * cd) * ad + (cn * bd) * ad);
    vstd::arithmetic::mul::lemma_mul_is_associative(an, bd, cd);
    vstd::arithmetic::mul::lemma_mul_is_associative(bn, ad, cd);
    vstd::arithmetic::mul::lemma_mul_is_associative(bn, cd, ad);
    assert(bn * (ad * cd) == bn * (cd * ad));
    vstd::arithmetic::mul::lemma_mul_is_associative(cn, ad, bd);
    vstd::arithmetic::mul::lemma_mul_is_associative(cn, bd, ad);
    assert(cn * (ad * bd) == cn * (bd * ad));
    vstd::arithmetic::mul::lemma_mul_is_associative(ad, bd, cd);
}

/// Four factors can be paired either way.
proof fn lemma_four_factors(x: int, y: int, z: int, w: int) by (nonlinear_arith)
    ensures
        (x * y) * (z * w) == (x * z) * (y * w),
{
}

proof fn lemma_poly_swap_mid(
    pn: int,
    pd: int,
    qn: int,
    qd: int,
    rn: int,
    rd: int,
    sn: int,
    sd: int,
)
    ensures
        (pn * qd + qn * pd) * (rd * sd) + (rn * sd + sn * rd) * (pd * qd) == (pn * rd + rn * pd) * (
        qd * sd) + (qn * sd + sn * qd) * (pd * rd),
        (pd * qd) * (rd * sd) == (pd * rd) * (qd * sd),
{
    broadcast use vstd::arithmetic::mul::group_mul_is_commutative_and_distributive;

    lemma_four_factors(pd, qd, rd, sd);
    assert((pn * qd + qn * pd) * (rd * sd) == (pn * qd) * (rd * sd) + (qn * pd) * (rd * sd));
    assert((rn * sd + sn * rd) * (pd * qd) == (rn * sd) * (pd * qd) + (sn * rd) * (pd * qd));
    assert((pn * rd + rn * pd) * (qd * sd) == (pn * rd) * (qd * sd) + (rn * pd) * (qd * sd));
    assert((qn * sd + sn * qd) * (pd * rd) == (qn * sd) * (pd * rd) + (sn * qd) * (pd * rd));
    lemma_four_factors(pn, qd, rd, sd);
    assert((pn * qd) * (rd * sd) == (pn * rd) * (qd * sd));
    lemma_four_factors(qn, pd, sd, rd);
    assert((qn * pd) * (rd * sd) == (qn * sd) * (pd * rd));
    lemma_four_factors(rn, sd, pd, qd);
    assert((rn * sd) * (pd * qd) == (rn * pd) * (sd * qd));
    assert((rn * sd) * (pd * qd) == (rn * pd) * (qd * sd));
    lemma_four_factors(sn, rd, qd, pd);
    assert((sn * rd) * (qd * pd) == (sn * qd) * (rd * pd));
    assert((sn * rd) * (pd * qd) == (sn * qd) * (pd * rd));
}

proof fn lemma_poly_distrib(an: int, ad: int, bn: int, bd: int, cn: int, cd: int)
    ensures
        ((an * bd + bn * ad) * cn) * cd == (an * cn) * (bd * cd) + (bn * cn) * (ad * cd),
        ((ad * bd) * cd) * cd == (ad * cd) * (bd * cd),
{
    broadcast use vstd::arithmetic::mul::group_mul_is_commutative_and_distributive;

    assert((an * bd + bn * ad) * cn == (an * bd) * cn + (bn * ad) * cn);
    assert(((an * bd) * cn + (bn * ad) * cn) * cd == ((an * bd) * cn) * cd + ((bn * ad) * cn)
        * cd);
    vstd::arithmetic::mul::lemma_mul_is_associative(an * bd, cn, cd);
    lemma_four_factors(an, bd, cn, cd);
    vstd::arithmetic::mul::lemma_mul_is_associative(bn * ad, cn, cd);
    lemma_four_factors(bn, ad, cn, cd);
    vstd::arithmetic::mul::lemma_mul_is_associative(ad * bd, cd, cd);
    lemma_four_factors(ad, bd, cd, cd);
}

/// Scaling numerator and denominator by the same nonzero factor keeps
/// the value.
pub proof fn lemma_rat_scale(x: RatV, k: int)
    ensures
        rat_eq(x, RatV { n: x.n * k, d: x.d * k }),
{
    assert(x.n * (x.d * k) == (x.n * k) * x.d) by (nonlinear_arith);
}

/// Addition of rational values is associative: the two groupings give
/// the same components.
pub proof fn lemma_rat_add_assoc(a: RatV, b: RatV, c: RatV)
    ensures
        rat_eq(rat_add(rat_add(a, b), c), rat_add(a, rat_add(b, c))),
{
    lemma_poly_add_assoc(a.n, a.d, b.n, b.d, c.n, c.d);
}

/// Two sums of two values each can be regrouped pairwise: the two
/// groupings give the same components.
pub proof fn lemma_rat_add_swap_mid(p: RatV, q: RatV, r: RatV, s: RatV)
    ensures
        rat_eq(rat_add(rat_add(p, q), rat_add(r, s)), rat_add(rat_add(p, r), rat_add(q, s))),
{
    lemma_poly_swap_mid(p.n, p.d, q.n, q.d, r.n, r.d, s.n, s.d);
}

/// Multiplication distributes over addition: the sum of products is the
/// distributed product scaled by one extra denominator factor.
pub proof fn lemma_rat_mul_distrib(a: RatV, b: RatV, c: RatV)
    ensures
        rat_eq(rat_mul(rat_add(a, b), c), rat_add(rat_mul(a, c), rat_mul(b, c))),
{
    let l = rat_mul(rat_add(a, b), c);
    lemma_rat_scale(l, c.d);
    lemma_poly_distrib(a.n, a.d, b.n, b.d, c.n, c.d);
    assert(RatV { n: l.n * c.d, d: l.d * c.d } == rat_add(rat_mul(a, c), rat_mul(b, c)));
}

/// Multiplication of rational values is associative.
pub proof fn lemma_rat_mul_assoc(a: RatV, b: RatV, c: RatV) by (nonlinear_arith)
    ensures
        rat_eq(rat_mul(rat_mul(a, b), c), rat_mul(a, rat_mul(b, c))),
{
}

/// Multiplication distributes over addition from the left as well.
pub proof fn lemma_rat_mul_distrib_left(c: RatV, a: RatV, b: RatV)
    requires
        rat_wf(a),
        rat_wf(b),
        rat_wf(c),
    ensures
        rat_eq(rat_mul(c, rat_add(a, b)), rat_add(rat_mul(c, a), rat_mul(c, b))),
{
    lemma_rat_mul_comm(c, rat_add(a, b));
    lemma_rat_mul_distrib(a, b, c);
    lemma_rat_mul_comm(a, c);
    lemma_rat_mul_comm(b, c);
    lemma_rat_add_cong(rat_mul(a, c), rat_mul(c, a), rat_mul(b, c), rat_mul(c, b));
    assert(rat_wf(rat_mul(rat_add(a, b), c))) by (nonlinear_arith)
        requires
            rat_wf(a),
            rat_wf(b),
            rat_wf(c),
    ;
    assert(rat_wf(rat_add(rat_mul(a, c), rat_mul(b, c)))) by (nonlinear_arith)
        requires
            rat_wf(a),
            rat_wf(b),
            rat_wf(c),
    ;
    lemma_rat_eq_trans(
        rat_mul(c, rat_add(a, b)),
        rat_mul(rat_add(a, b), c),
        rat_add(rat_mul(a, c), rat_mul(b, c)),
    );
    lemma_rat_eq_trans(
        rat_mul(c, rat_add(a, b)),
        rat_add(rat_mul(a, c), rat_mul(b, c)),
        rat_add(rat_mul(c, a), rat_mul(c, b)),
    );
}

/// Multiplying by zero yields zero.
pub proof fn lemma_rat_mul_zero(a: RatV) by (nonlinear_arith)
    ensures
        rat_eq(rat_mul(a, rat_int(0)), rat_int(0)),
        rat_eq(rat_mul(rat_int(0), a), rat_int(0)),
{
}

} // verus!
