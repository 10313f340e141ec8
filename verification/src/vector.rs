//! Fixed-length vectors of exact rationals.
//!
//! A `Vector` is an ordered sequence of `Rat` components whose length is
//! fixed at construction. Component-wise addition and subtraction, scalar
//! multiplication and division, and the dot product are exact; an
//! operation returns `None` only when a result leaves `i64` range.

use vstd::prelude::*;

verus! {

use crate::rat::{
    Rat,
    RatV,
    rat_wf,
    rat_eq,
    rat_add,
    rat_sub,
    rat_mul,
    rat_div,
    rat_int,
    rat_fits,
    lemma_rat_add_comm,
    lemma_rat_add_sub_cancel,
    lemma_rat_mul_comm,
    lemma_rat_add_cong,
    lemma_rat_mul_cong,
    lemma_rat_eq_trans,
    lemma_rat_eq_sym,
    lemma_rat_add_zero,
    lemma_rat_mul_one,
    lemma_rat_mul_zero,
    lemma_rat_add_swap_mid,
    lemma_rat_mul_distrib,
    lemma_rat_mul_distrib_left,
    lemma_rat_mul_assoc,
    rat_canon,
};

/// The dot product of two equally long sequences of rational values:
/// the sum of the component-wise products.
pub open spec fn dot_v(a: Seq<RatV>, b: Seq<RatV>) -> RatV
    recommends
        a.len() == b.len(),
    decreases a.len(),
{
    if a.len() == 0 {
        rat_int(0)
    } else {
        rat_add(dot_v(a.drop_last(), b.drop_last()), rat_mul(a.last(), b.last()))
    }
}

/// One accumulation step of the dot product as executed: the canonical
/// product, then the canonical sum, each defined exactly when it fits
/// `i64` range.
pub open spec fn dot_step(acc: RatV, x: RatV, y: RatV) -> Option<RatV> {
    let p = rat_canon(rat_mul(x, y));
    if !rat_fits(p) {
        Option::None
    } else {
        let s = rat_canon(rat_add(acc, p));
        if rat_fits(s) {
            Option::Some(s)
        } else {
            Option::None
        }
    }
}

/// The dot product as executed over canonical representatives: defined
/// exactly when every intermediate fits `i64` range, and then equal to
/// the representative the machine holds.
pub open spec fn dot_partial(a: Seq<RatV>, b: Seq<RatV>) -> Option<RatV>
    recommends
        a.len() == b.len(),
    decreases a.len(),
{
    if a.len() == 0 {
        Option::Some(rat_int(0))
    } else {
        match dot_partial(a.drop_last(), b.drop_last()) {
            Option::None => Option::None,
            Option::Some(acc) => dot_step(acc, a.last(), b.last()),
        }
    }
}

/// Once an intermediate of the dot product fails to fit, the whole dot
/// product is undefined.
pub proof fn lemma_dot_partial_extends(a: Seq<RatV>, b: Seq<RatV>, k: int)
    requires
        a.len() == b.len(),
        0 <= k <= a.len(),
        dot_partial(a.take(k), b.take(k)) is None,
    ensures
        dot_partial(a, b) is None,
    decreases a.len() - k,
{
    if k == a.len() {
        assert(a.take(k) =~= a);
        assert(b.take(k) =~= b);
    } else {
        assert(a.take(k + 1).drop_last() =~= a.take(k));
        assert(b.take(k + 1).drop_last() =~= b.take(k));
        lemma_dot_partial_extends(a, b, k + 1);
    }
}

/// Every rational value of the sequence is well formed.
pub open spec fn seq_wf(s: Seq<RatV>) -> bool {
    forall|i: int| 0 <= i < s.len() ==> rat_wf(#[trigger] s[i])
}

/// Two sequences denote the same vector of numbers.
pub open spec fn vec_eq(a: Seq<RatV>, b: Seq<RatV>) -> bool {
    a.len() == b.len() && forall|i: int| 0 <= i < a.len() ==> rat_eq(#[trigger] a[i], #[trigger] b[i])
}

/// An ordered, fixed-length sequence of rational components.
#[derive(Debug)]
pub struct Vector {
    data: Vec<Rat>,
}

impl View for Vector {
    type V = Seq<RatV>;

    closed spec fn view(&self) -> Seq<RatV> {
        self.data@.map_values(|r: Rat| r@)
    }
}

impl Vector {
    /// Wraps the given components; the vector's length is theirs.
    pub fn new(data: Vec<Rat>) -> (v: Vector)
        ensures
            v@.len() == data@.len(),
            forall|i: int| 0 <= i < data@.len() ==> v@[i] == data@[i]@,
    {
        Vector { data }
    }

    /// Number of components.
    pub fn len(&self) -> (n: usize)
        ensures
            n == self@.len(),
    {
        self.data.len()
    }

    /// The component at `i`.
    pub fn get(&self, i: usize) -> (r: Rat)
        requires
            i < self@.len(),
        ensures
            r@ == self@[i as int],
    {
        self.data[i]
    }

    /// Replaces the component at `i`.
    pub fn set(&mut self, i: usize, v: Rat)
        requires
            i < old(self)@.len(),
        ensures
            final (self)@ =~= old(self)@.update(i as int, v@),
    {
        self.data.set(i, v);
    }

    /// A copy of the components.
    pub fn get_data(&self) -> (r: Vec<Rat>)
        ensures
            r@.len() == self@.len(),
            forall|i: int| 0 <= i < r@.len() ==> r@[i]@ == self@[i],
    {
        let mut out: Vec<Rat> = Vec::new();
        let mut i: usize = 0;
        while i < self.data.len()
            invariant
                i <= self.data@.len(),
                out@.len() == i,
                forall|j: int| 0 <= j < i ==> out@[j]@ == self@[j],
            decreases self.data@.len() - i,
        {
            out.push(self.data[i]);
            i = i + 1;
        }
        out
    }

    /// First component of a three-component vector.
    pub fn x(&self) -> (r: Rat)
        requires
            self@.len() == 3,
        ensures
            r@ == self@[0],
    {
        self.data[0]
    }

    /// Second component of a three-component vector.
    pub fn y(&self) -> (r: Rat)
        requires
            self@.len() == 3,
        ensures
            r@ == self@[1],
    {
        self.data[1]
    }

    /// Third component of a three-component vector.
    pub fn z(&self) -> (r: Rat)
        requires
            self@.len() == 3,
        ensures
            r@ == self@[2],
    {
        self.data[2]
    }

    /// Component-wise sum. Lengths must match: a mismatch is a caller
    /// bug, not a runtime condition.
    pub fn add(&self, other: &Vector) -> (r: Option<Vector>)
        requires
            self@.len() == other@.len(),
        ensures
            r matches Some(v) ==> vec_eq(v@, seq_add(self@, other@)),
            (forall|i: int|
                0 <= i < self@.len() ==> rat_fits(rat_add(self@[i], other@[i]))) ==> r is Some,
    {
        let n: usize = self.data.len();
        let mut out: Vec<Rat> = Vec::new();
        let mut i: usize = 0;
        while i < n
            invariant
                n == self@.len() == other@.len(),
                i <= n,
                out@.len() == i,
                forall|j: int| 0 <= j < i ==> rat_eq(#[trigger] out@[j]@, rat_add(self@[j], other@[j])),
            decreases n - i,
        {
            match self.data[i].add(&other.data[i]) {
                Some(c) => out.push(c),
                None => {
                    proof {
                        assert(self@[i as int] == self.data@[i as int]@);
                        assert(!rat_fits(rat_add(self@[i as int], other@[i as int])));
                    }
                    return None;
                },
            }
            i = i + 1;
        }
        proof {
            assert(seq_add(self@, other@).len() == self@.len());
        }
        Some(Vector { data: out })
    }

    /// Component-wise difference.
    pub fn sub(&self, other: &Vector) -> (r: Option<Vector>)
        requires
            self@.len() == other@.len(),
        ensures
            r matches Some(v) ==> vec_eq(v@, seq_sub(self@, other@)),
            (forall|i: int|
                0 <= i < self@.len() ==> rat_fits(rat_sub(self@[i], other@[i]))) ==> r is Some,
    {
        let n: usize = self.data.len();
        let mut out: Vec<Rat> = Vec::new();
        let mut i: usize = 0;
        while i < n
            invariant
                n == self@.len() == other@.len(),
                i <= n,
                out@.len() == i,
                forall|j: int| 0 <= j < i ==> rat_eq(#[trigger] out@[j]@, rat_sub(self@[j], other@[j])),
            decreases n - i,
        {
            match self.data[i].sub(&other.data[i]) {
                Some(c) => out.push(c),
                None => {
                    proof {
                        assert(self@[i as int] == self.data@[i as int]@);
                        assert(!rat_fits(rat_sub(self@[i as int], other@[i as int])));
                    }
                    return None;
                },
            }
            i = i + 1;
        }
        Some(Vector { data: out })
    }

    /// Scalar multiple of every component.
    pub fn mul(&self, rhs: &Rat) -> (r: Option<Vector>)
        ensures
            r matches Some(v) ==> v@.len() == self@.len() && forall|i: int|
                0 <= i < self@.len() ==> rat_eq(#[trigger] v@[i], rat_mul(self@[i], rhs@)),
            (forall|i: int| 0 <= i < self@.len() ==> rat_fits(rat_mul(self@[i], rhs@))) ==> r
                is Some,
    {
        let n: usize = self.data.len();
        let mut out: Vec<Rat> = Vec::new();
        let mut i: usize = 0;
        while i < n
            invariant
                n == self@.len(),
                i <= n,
                out@.len() == i,
                forall|j: int| 0 <= j < i ==> rat_eq(#[trigger] out@[j]@, rat_mul(self@[j], rhs@)),
            decreases n - i,
        {
            match self.data[i].mul(rhs) {
                Some(c) => out.push(c),
                None => {
                    proof {
                        assert(self@[i as int] == self.data@[i as int]@);
                        assert(!rat_fits(rat_mul(self@[i as int], rhs@)));
                    }
                    return None;
                },
            }
            i = i + 1;
        }
        Some(Vector { data: out })
    }

    /// Every component divided by the scalar; `None` when it is zero.
    pub fn div(&self, rhs: &Rat) -> (r: Option<Vector>)
        ensures
            r matches Some(v) ==> rhs@.n != 0 && v@.len() == self@.len() && forall|i: int|
                0 <= i < self@.len() ==> rat_eq(#[trigger] v@[i], rat_div(self@[i], rhs@)),
            rhs@.n != 0 && (forall|i: int|
                0 <= i < self@.len() ==> rat_fits(rat_div(self@[i], rhs@))) ==> r is Some,
    {
        let n: usize = self.data.len();
        let mut out: Vec<Rat> = Vec::new();
        let mut i: usize = 0;
        while i < n
            invariant
                n == self@.len(),
                i <= n,
                out@.len() == i,
                i >= 1 ==> rhs@.n != 0,
                forall|j: int| 0 <= j < i ==> rat_eq(#[trigger] out@[j]@, rat_div(self@[j], rhs@)),
            decreases n - i,
        {
            match self.data[i].div(rhs) {
                Some(c) => out.push(c),
                None => {
                    proof {
                        assert(self@[i as int] == self.data@[i as int]@);
                        assert(!(rhs@.n != 0 && rat_fits(rat_div(self@[i as int], rhs@))));
                    }
                    return None;
                },
            }
            i = i + 1;
        }
        if self.data.len() == 0 && rhs.is_zero() {
            return None;
        }
        Some(Vector { data: out })
    }

    /// The dot product: the exact sum of component-wise products,
    /// defined exactly when every canonical intermediate fits `i64`
    /// range.
    pub fn dot(&self, other: &Vector) -> (r: Option<Rat>)
        requires
            self@.len() == other@.len(),
        ensures
            r matches Some(c) ==> rat_eq(c@, dot_v(self@, other@)),
            r is Some <==> dot_partial(self@, other@) is Some,
            r matches Some(c) ==> dot_partial(self@, other@) == Some(c@),
    {
        let n: usize = self.data.len();
        let mut acc = Rat::from_int(0);
        let mut i: usize = 0;
        while i < n
            invariant
                n == self@.len() == other@.len(),
                i <= n,
                rat_wf(acc@),
                rat_wf(dot_v(self@.take(i as int), other@.take(i as int))),
                rat_eq(acc@, dot_v(self@.take(i as int), other@.take(i as int))),
                dot_partial(self@.take(i as int), other@.take(i as int)) == Some(acc@),
            decreases n - i,
        {
            let a = self.data[i];
            let b = other.data[i];
            proof {
                use_type_invariant(a);
                use_type_invariant(b);
            }
            let p = match a.mul(&b) {
                Some(c) => c,
                None => {
                    proof {
                        assert(self@.take(i + 1).drop_last() =~= self@.take(i as int));
                        assert(other@.take(i + 1).drop_last() =~= other@.take(i as int));
                        assert(dot_partial(self@.take(i + 1), other@.take(i + 1)) is None);
                        lemma_dot_partial_extends(self@, other@, i + 1);
                    }
                    return None;
                },
            };
            let next = match acc.add(&p) {
                Some(c) => c,
                None => {
                    proof {
                        assert(self@.take(i + 1).drop_last() =~= self@.take(i as int));
                        assert(other@.take(i + 1).drop_last() =~= other@.take(i as int));
                        assert(dot_partial(self@.take(i + 1), other@.take(i + 1)) is None);
                        lemma_dot_partial_extends(self@, other@, i + 1);
                    }
                    return None;
                },
            };
            proof {
                use_type_invariant(p);
                use_type_invariant(next);
                let ghost pre = dot_v(self@.take(i as int), other@.take(i as int));
                let ghost post = dot_v(self@.take(i + 1), other@.take(i + 1));
                assert(self@.take(i + 1).drop_last() =~= self@.take(i as int));
                assert(other@.take(i + 1).drop_last() =~= other@.take(i as int));
                assert(self@.take(i + 1).last() == self@[i as int]);
                assert(post == rat_add(pre, rat_mul(self@[i as int], other@[i as int])));
                lemma_rat_add_cong(acc@, pre, p@, rat_mul(self@[i as int], other@[i as int]));
                assert(rat_wf(post)) by (nonlinear_arith)
                    requires
                        rat_wf(pre),
                        rat_wf(self@[i as int]),
                        rat_wf(other@[i as int]),
                        post == rat_add(pre, rat_mul(self@[i as int], other@[i as int])),
                ;
                assert(rat_wf(rat_add(acc@, p@))) by (nonlinear_arith)
                    requires
                        rat_wf(acc@),
                        rat_wf(p@),
                ;
                lemma_rat_eq_trans(next@, rat_add(acc@, p@), post);
                assert(dot_partial(self@.take(i + 1), other@.take(i + 1)) == Some(next@));
            }
            acc = next;
            i = i + 1;
        }
        proof {
            assert(self@.take(n as int) =~= self@);
            assert(other@.take(n as int) =~= other@);
        }
        Some(acc)
    }
}

/// Component-wise sum of two equally long sequences of rational values.
pub open spec fn seq_add(a: Seq<RatV>, b: Seq<RatV>) -> Seq<RatV>
    recommends
        a.len() == b.len(),
{
    Seq::new(a.len(), |i: int| rat_add(a[i], b[i]))
}

/// Component-wise difference of two equally long sequences.
pub open spec fn seq_sub(a: Seq<RatV>, b: Seq<RatV>) -> Seq<RatV>
    recommends
        a.len() == b.len(),
{
    Seq::new(a.len(), |i: int| rat_sub(a[i], b[i]))
}

impl PartialEq for Vector {
    /// Value equality: same length and the same number in every
    /// component, whatever the representations.
    fn eq(&self, other: &Vector) -> (r: bool) {
        if self.data.len() != other.data.len() {
            return false;
        }
        let n: usize = self.data.len();
        let mut i: usize = 0;
        while i < n
            invariant
                n == self@.len() == other@.len(),
                i <= n,
                forall|j: int| 0 <= j < i ==> rat_eq(#[trigger] self@[j], #[trigger] other@[j]),
            decreases n - i,
        {
            if !(self.data[i] == other.data[i]) {
                proof {
                    assert(!rat_eq(self@[i as int], other@[i as int]));
                }
                return false;
            }
            i = i + 1;
        }
        true
    }
}

impl vstd::std_specs::cmp::PartialEqSpecImpl for Vector {
    open spec fn obeys_eq_spec() -> bool {
        true
    }

    open spec fn eq_spec(&self, other: &Vector) -> bool {
        vec_eq(self@, other@)
    }
}

/// Vector addition is commutative: the component-wise sums taken in
/// either order denote the same vector.
pub proof fn lemma_vec_add_comm(a: Seq<RatV>, b: Seq<RatV>)
    requires
        a.len() == b.len(),
    ensures
        vec_eq(seq_add(a, b), seq_add(b, a)),
{
    assert forall|i: int| 0 <= i < a.len() implies rat_eq(
        #[trigger] seq_add(a, b)[i],
        #[trigger] seq_add(b, a)[i],
    ) by {
        lemma_rat_add_comm(a[i], b[i]);
    }
}

/// Adding a vector and then subtracting it again is the identity.
pub proof fn lemma_vec_add_sub_cancel(a: Seq<RatV>, b: Seq<RatV>)
    requires
        a.len() == b.len(),
    ensures
        vec_eq(seq_sub(seq_add(a, b), b), a),
{
    assert forall|i: int| 0 <= i < a.len() implies rat_eq(
        #[trigger] seq_sub(seq_add(a, b), b)[i],
        a[i],
    ) by {
        lemma_rat_add_sub_cancel(a[i], b[i]);
    }
}

/// The vector whose component `j` is one and whose other `n - 1`
/// components are zero.
pub open spec fn unit_v(n: int, j: int) -> Seq<RatV> {
    Seq::new(n as nat, |k: int| if k == j { rat_int(1) } else { rat_int(0) })
}

/// A dot product of well-formed sequences is well formed.
pub proof fn lemma_dot_wf(a: Seq<RatV>, b: Seq<RatV>)
    requires
        a.len() == b.len(),
        seq_wf(a),
        seq_wf(b),
    ensures
        rat_wf(dot_v(a, b)),
    decreases a.len(),
{
    if a.len() == 0 {
    } else {
        lemma_dot_wf(a.drop_last(), b.drop_last());
        let pre = dot_v(a.drop_last(), b.drop_last());
        assert(rat_wf(rat_add(pre, rat_mul(a.last(), b.last())))) by (nonlinear_arith)
            requires
                rat_wf(pre),
                rat_wf(a.last()),
                rat_wf(b.last()),
        ;
    }
}

/// The dot product respects value equality of the first argument.
pub proof fn lemma_dot_cong_first(a: Seq<RatV>, a2: Seq<RatV>, b: Seq<RatV>)
    requires
        a.len() == b.len(),
        vec_eq(a, a2),
    ensures
        rat_eq(dot_v(a, b), dot_v(a2, b)),
    decreases a.len(),
{
    if a.len() == 0 {
    } else {
        assert(vec_eq(a.drop_last(), a2.drop_last()));
        lemma_dot_cong_first(a.drop_last(), a2.drop_last(), b.drop_last());
        lemma_rat_mul_cong(a.last(), a2.last(), b.last(), b.last());
        lemma_rat_add_cong(
            dot_v(a.drop_last(), b.drop_last()),
            dot_v(a2.drop_last(), b.drop_last()),
            rat_mul(a.last(), b.last()),
            rat_mul(a2.last(), b.last()),
        );
    }
}

/// The dot product with an all-zero vector is zero.
pub proof fn lemma_dot_zero(s: Seq<RatV>, z: Seq<RatV>)
    requires
        z.len() == s.len(),
        seq_wf(s),
        forall|k: int| 0 <= k < z.len() ==> z[k] == rat_int(0),
    ensures
        rat_eq(dot_v(s, z), rat_int(0)),
    decreases s.len(),
{
    if s.len() == 0 {
    } else {
        lemma_dot_zero(s.drop_last(), z.drop_last());
        let pre = dot_v(s.drop_last(), z.drop_last());
        lemma_rat_mul_zero(s.last());
        lemma_rat_add_cong(pre, rat_int(0), rat_mul(s.last(), z.last()), rat_int(0));
        lemma_rat_add_zero(rat_int(0));
        lemma_rat_eq_trans(
            dot_v(s, z),
            rat_add(rat_int(0), rat_int(0)),
            rat_int(0),
        );
    }
}

/// The dot product with the unit vector along `j` picks out component
/// `j`.
pub proof fn lemma_dot_unit(s: Seq<RatV>, j: int)
    requires
        seq_wf(s),
        0 <= j < s.len(),
    ensures
        rat_eq(dot_v(s, unit_v(s.len() as int, j)), s[j]),
    decreases s.len(),
{
    let n = s.len() as int;
    let u = unit_v(n, j);
    let pre = dot_v(s.drop_last(), u.drop_last());
    if j == n - 1 {
        assert(u.drop_last() =~= Seq::new((n - 1) as nat, |k: int| rat_int(0)));
        lemma_dot_zero(s.drop_last(), u.drop_last());
        lemma_rat_mul_one(s.last());
        lemma_rat_add_cong(pre, rat_int(0), rat_mul(s.last(), u.last()), s.last());
        lemma_rat_add_zero(s.last());
        assert(rat_wf(rat_add(rat_int(0), s.last()))) by (nonlinear_arith)
            requires
                rat_wf(s.last()),
        ;
        lemma_rat_eq_trans(dot_v(s, u), rat_add(rat_int(0), s.last()), s.last());
    } else {
        assert(u.drop_last() =~= unit_v(n - 1, j));
        lemma_dot_unit(s.drop_last(), j);
        lemma_rat_mul_zero(s.last());
        lemma_rat_add_cong(pre, s[j], rat_mul(s.last(), u.last()), rat_int(0));
        lemma_rat_add_zero(s[j]);
        assert(rat_wf(rat_add(s[j], rat_int(0)))) by (nonlinear_arith)
            requires
                rat_wf(s[j]),
        ;
        lemma_rat_eq_trans(dot_v(s, u), rat_add(s[j], rat_int(0)), s[j]);
    }
}

/// The sequence whose components are `s` times those of `v`.
pub open spec fn seq_scale(s: RatV, v: Seq<RatV>) -> Seq<RatV> {
    Seq::new(v.len(), |k: int| rat_mul(s, v[k]))
}

/// The dot product is additive in its first argument.
pub proof fn lemma_dot_add_left(a: Seq<RatV>, b: Seq<RatV>, w: Seq<RatV>)
    requires
        a.len() == b.len() == w.len(),
        seq_wf(a),
        seq_wf(b),
        seq_wf(w),
    ensures
        rat_eq(dot_v(seq_add(a, b), w), rat_add(dot_v(a, w), dot_v(b, w))),
    decreases a.len(),
{
    let s = seq_add(a, b);
    if a.len() == 0 {
        assert(rat_eq(dot_v(s, w), rat_add(dot_v(a, w), dot_v(b, w))));
    } else {
        let a2 = a.drop_last();
        let b2 = b.drop_last();
        let w2 = w.drop_last();
        assert(seq_wf(a2) && seq_wf(b2) && seq_wf(w2));
        lemma_dot_add_left(a2, b2, w2);
        assert(s.drop_last() =~= seq_add(a2, b2));
        assert(s.last() == rat_add(a.last(), b.last()));
        lemma_rat_mul_distrib(a.last(), b.last(), w.last());
        lemma_rat_add_cong(
            dot_v(seq_add(a2, b2), w2),
            rat_add(dot_v(a2, w2), dot_v(b2, w2)),
            rat_mul(s.last(), w.last()),
            rat_add(rat_mul(a.last(), w.last()), rat_mul(b.last(), w.last())),
        );
        lemma_rat_add_swap_mid(
            dot_v(a2, w2),
            dot_v(b2, w2),
            rat_mul(a.last(), w.last()),
            rat_mul(b.last(), w.last()),
        );
        lemma_dot_wf(a2, w2);
        lemma_dot_wf(b2, w2);
        let mid = rat_add(
            rat_add(dot_v(a2, w2), dot_v(b2, w2)),
            rat_add(rat_mul(a.last(), w.last()), rat_mul(b.last(), w.last())),
        );
        assert(rat_wf(mid)) by (nonlinear_arith)
            requires
                rat_wf(dot_v(a2, w2)),
                rat_wf(dot_v(b2, w2)),
                rat_wf(a.last()),
                rat_wf(b.last()),
                rat_wf(w.last()),
                mid == rat_add(
                    rat_add(dot_v(a2, w2), dot_v(b2, w2)),
                    rat_add(
                        rat_mul(a.last(), w.last()),
                        rat_mul(b.last(), w.last()),
                    ),
                ),
        ;
        lemma_rat_eq_trans(dot_v(s, w), mid, rat_add(dot_v(a, w), dot_v(b, w)));
    }
}

/// The dot product pulls a common scalar factor out of its first
/// argument.
pub proof fn lemma_dot_scale_left(s: RatV, v: Seq<RatV>, w: Seq<RatV>)
    requires
        v.len() == w.len(),
        rat_wf(s),
        seq_wf(v),
        seq_wf(w),
    ensures
        rat_eq(dot_v(seq_scale(s, v), w), rat_mul(s, dot_v(v, w))),
    decreases v.len(),
{
    let sv = seq_scale(s, v);
    if v.len() == 0 {
        assert(dot_v(sv, w) == rat_int(0));
        lemma_rat_mul_zero(s);
        lemma_rat_eq_sym(rat_mul(s, rat_int(0)), rat_int(0));
    } else {
        let v2 = v.drop_last();
        let w2 = w.drop_last();
        assert(seq_wf(v2) && seq_wf(w2));
        lemma_dot_scale_left(s, v2, w2);
        assert(sv.drop_last() =~= seq_scale(s, v2));
        assert(sv.last() == rat_mul(s, v.last()));
        lemma_rat_mul_assoc(s, v.last(), w.last());
        lemma_rat_add_cong(
            dot_v(seq_scale(s, v2), w2),
            rat_mul(s, dot_v(v2, w2)),
            rat_mul(rat_mul(s, v.last()), w.last()),
            rat_mul(s, rat_mul(v.last(), w.last())),
        );
        lemma_dot_wf(v2, w2);
        assert(rat_wf(rat_mul(v.last(), w.last()))) by (nonlinear_arith)
            requires
                rat_wf(v.last()),
                rat_wf(w.last()),
        ;
        lemma_rat_mul_distrib_left(s, dot_v(v2, w2), rat_mul(v.last(), w.last()));
        lemma_rat_eq_sym(
            rat_mul(s, rat_add(dot_v(v2, w2), rat_mul(v.last(), w.last()))),
            rat_add(rat_mul(s, dot_v(v2, w2)), rat_mul(s, rat_mul(v.last(), w.last()))),
        );
        let mid = rat_add(rat_mul(s, dot_v(v2, w2)), rat_mul(s, rat_mul(v.last(), w.last())));
        assert(rat_wf(mid)) by (nonlinear_arith)
            requires
                rat_wf(s),
                rat_wf(dot_v(v2, w2)),
                rat_wf(v.last()),
                rat_wf(w.last()),
                mid == rat_add(
                    rat_mul(s, dot_v(v2, w2)),
                    rat_mul(s, rat_mul(v.last(), w.last())),
                ),
        ;
        lemma_rat_eq_trans(dot_v(sv, w), mid, rat_mul(s, dot_v(v, w)));
    }
}

/// The dot product respects value equality of the second argument.
pub proof fn lemma_dot_cong_second(a: Seq<RatV>, b: Seq<RatV>, b2: Seq<RatV>)
    requires
        a.len() == b.len(),
        vec_eq(b, b2),
    ensures
        rat_eq(dot_v(a, b), dot_v(a, b2)),
    decreases a.len(),
{
    if a.len() == 0 {
    } else {
        assert(vec_eq(b.drop_last(), b2.drop_last()));
        lemma_dot_cong_second(a.drop_last(), b.drop_last(), b2.drop_last());
        lemma_rat_mul_cong(a.last(), a.last(), b.last(), b2.last());
        lemma_rat_add_cong(
            dot_v(a.drop_last(), b.drop_last()),
            dot_v(a.drop_last(), b2.drop_last()),
            rat_mul(a.last(), b.last()),
            rat_mul(a.last(), b2.last()),
        );
    }
}

/// The dot product is symmetric in its two arguments.
pub proof fn lemma_dot_comm(a: Seq<RatV>, b: Seq<RatV>)
    requires
        a.len() == b.len(),
    ensures
        rat_eq(dot_v(a, b), dot_v(b, a)),
    decreases a.len(),
{
    if a.len() == 0 {
    } else {
        lemma_dot_comm(a.drop_last(), b.drop_last());
        lemma_rat_mul_comm(a.last(), b.last());
        lemma_rat_add_cong(
            dot_v(a.drop_last(), b.drop_last()),
            dot_v(b.drop_last(), a.drop_last()),
            rat_mul(a.last(), b.last()),
            rat_mul(b.last(), a.last()),
        );
    }
}

} // verus!
