//! One grid cell: the quadratic map `z <- z^2 + c` iterated from `z = 0`
//! until `|z|` passes `LIMIT`.
use crate::complex::{complex_add, complex_mul, norm_sqr, trunc_div, unscale};
use num_complex::Complex;
use vstd::prelude::*;

verus! {

/// The fixed-point unit: a plane coordinate `v` stands for `v / ONE`.
pub const ONE: i128 = 0x1_0000_0000;

/// The escape radius, in fixed-point units (100.0).
pub const LIMIT: i128 = 429_496_729_600;

/// `LIMIT` squared, on the scale of a squared fixed-point value.
pub const LIMIT_SQ: i128 = 184_467_440_737_095_516_160_000;

/// The largest magnitude a coordinate of `c` may have (2^61 units, that is 2^29).
pub const COORD_MAX: i64 = 0x2000_0000_0000_0000;

/// The largest magnitude a part of `z` can reach: one step from inside the limit.
pub open spec fn z_max() -> int {
    LIMIT_SQ / ONE + COORD_MAX
}

/// What a cell holds, as mathematical integers.
pub struct PointModel {
    pub c_re: int,
    pub c_im: int,
    pub z_re: int,
    pub z_im: int,
    pub iterations: nat,
}

pub open spec fn coord_ok(v: int) -> bool {
    -COORD_MAX <= v <= COORD_MAX
}

pub open spec fn z_ok(v: int) -> bool {
    -z_max() <= v <= z_max()
}

/// The states that a cell can be in.
pub open spec fn model_wf(m: PointModel) -> bool {
    coord_ok(m.c_re) && coord_ok(m.c_im) && z_ok(m.z_re) && z_ok(m.z_im)
}

/// `|z| > LIMIT`.
pub open spec fn outside(z_re: int, z_im: int) -> bool {
    z_re * z_re + z_im * z_im > LIMIT_SQ
}

/// A cell for `c` before any step.
pub open spec fn fresh(c_re: int, c_im: int) -> PointModel {
    PointModel { c_re, c_im, z_re: 0, z_im: 0, iterations: 0 }
}

/// One step: `z <- z^2 + c` and one more iteration, unless the cell has escaped.
pub open spec fn advanced(m: PointModel) -> PointModel {
    if outside(m.z_re, m.z_im) {
        m
    } else {
        PointModel {
            z_re: trunc_div(m.z_re * m.z_re - m.z_im * m.z_im, ONE as int) + m.c_re,
            z_im: trunc_div(m.z_re * m.z_im + m.z_im * m.z_re, ONE as int) + m.c_im,
            iterations: m.iterations + 1,
            ..m
        }
    }
}

/// `n` steps.
pub open spec fn advanced_by(m: PointModel, n: nat) -> PointModel
    decreases n,
{
    if n == 0 {
        m
    } else {
        advanced(advanced_by(m, (n - 1) as nat))
    }
}

/// The state of one grid cell.
#[derive(Clone, Copy)]
pub struct Point {
    iterations: usize,
    z: Complex<i128>,
    c: Complex<i128>,
}

impl View for Point {
    type V = PointModel;

    closed spec fn view(&self) -> PointModel {
        PointModel {
            c_re: self.c.re as int,
            c_im: self.c.im as int,
            z_re: self.z.re as int,
            z_im: self.z.im as int,
            iterations: self.iterations as nat,
        }
    }
}

proof fn lemma_square_bound(a: int, m: int)
    requires
        -m <= a <= m,
    ensures
        0 <= a * a <= m * m,
{
    assert(0 <= a * a <= m * m) by (nonlinear_arith)
        requires
            -m <= a <= m,
    ;
}

proof fn lemma_inside_bounds(a: int, b: int)
    requires
        a * a + b * b <= LIMIT_SQ,
    ensures
        -LIMIT <= a <= LIMIT,
        -LIMIT <= b <= LIMIT,
        -LIMIT_SQ <= a * a - b * b <= LIMIT_SQ,
        -LIMIT_SQ <= a * b + b * a <= LIMIT_SQ,
{
    let l = LIMIT as int;
    assert(429_496_729_600int * 429_496_729_600int == 184_467_440_737_095_516_160_000int);
    assert(l * l == LIMIT_SQ);
    assert(-l <= a <= l) by (nonlinear_arith)
        requires
            a * a + b * b <= l * l,
            l > 0,
    ;
    assert(-l <= b <= l) by (nonlinear_arith)
        requires
            a * a + b * b <= l * l,
            l > 0,
    ;
    assert(-LIMIT_SQ <= a * b + b * a <= LIMIT_SQ) by (nonlinear_arith)
        requires
            a * a + b * b <= LIMIT_SQ,
    ;
    assert(a * a >= 0 && b * b >= 0) by (nonlinear_arith);
}

proof fn lemma_trunc_div_bound(a: int, d: int, m: int)
    requires
        d > 0,
        -m <= a <= m,
    ensures
        -(m / d) <= trunc_div(a, d) <= m / d,
{
    if a >= 0 {
        vstd::arithmetic::div_mod::lemma_div_is_ordered(a, m, d);
    } else {
        vstd::arithmetic::div_mod::lemma_div_is_ordered(-a, m, d);
    }
}

impl Point {
    pub open spec fn wf(&self) -> bool {
        model_wf(self@)
    }

    /// A cell for `c = re + im i`, with `z = 0` and no iteration.
    pub fn new(re: i64, im: i64) -> (r: Point)
        requires
            coord_ok(re as int),
            coord_ok(im as int),
        ensures
            r@ == fresh(re as int, im as int),
            r.wf(),
    {
        let c = Complex::new(re as i128, im as i128);
        let z = Complex::new(0i128, 0i128);
        Point { c, z, iterations: 0 }
    }

    /// Whether `|z| > LIMIT`.
    pub fn is_escaped(&self) -> (r: bool)
        requires
            self.wf(),
        ensures
            r == outside(self@.z_re, self@.z_im),
    {
        proof {
            lemma_square_bound(self.z.re as int, z_max());
            lemma_square_bound(self.z.im as int, z_max());
            assert(z_max() == 2_305_885_958_886_653_952int);
            assert(2_305_885_958_886_653_952int * 2_305_885_958_886_653_952int
                <= 0x1000_0000_0000_0000_0000_0000_0000_0000int);
        }
        norm_sqr(&self.z) > LIMIT_SQ
    }

    /// The iterations taken; frozen once the cell has escaped.
    pub fn count(&self) -> (r: usize)
        ensures
            r == self@.iterations,
    {
        self.iterations
    }

    /// Applies `z <- z^2 + c` and counts one iteration, unless the cell has escaped,
    /// in which case nothing changes.
    pub fn step(&mut self)
        requires
            old(self).wf(),
            old(self)@.iterations < usize::MAX || outside(old(self)@.z_re, old(self)@.z_im),
        ensures
            final(self)@ == advanced(old(self)@),
            final(self).wf(),
    {
        if !self.is_escaped() {
            proof {
                lemma_inside_bounds(self.z.re as int, self.z.im as int);
                lemma_trunc_div_bound(
                    self.z.re * self.z.re - self.z.im * self.z.im,
                    ONE as int,
                    LIMIT_SQ as int,
                );
                lemma_trunc_div_bound(
                    self.z.re * self.z.im + self.z.im * self.z.re,
                    ONE as int,
                    LIMIT_SQ as int,
                );
            }
            proof {
                lemma_square_bound(self.z.re as int, LIMIT as int);
                lemma_square_bound(self.z.im as int, LIMIT as int);
                assert(429_496_729_600int * 429_496_729_600int == 184_467_440_737_095_516_160_000int);
                assert(-LIMIT_SQ <= self.z.re * self.z.im <= LIMIT_SQ) by (nonlinear_arith)
                    requires
                        -LIMIT <= self.z.re <= LIMIT,
                        -LIMIT <= self.z.im <= LIMIT,
                        LIMIT * LIMIT == LIMIT_SQ,
                ;
            }
            let sq = complex_mul(self.z, self.z);
            let scaled = unscale(sq, ONE);
            self.z = complex_add(scaled, self.c);
            self.iterations = self.iterations + 1;
        }
    }
}

/// Once a cell has escaped, any number of further steps leaves `z` and the
/// iteration count as they are.
pub proof fn lemma_escaped_cell_is_frozen(m: PointModel, n: nat)
    requires
        outside(m.z_re, m.z_im),
    ensures
        advanced_by(m, n) == m,
    decreases n,
{
    if n > 0 {
        lemma_escaped_cell_is_frozen(m, (n - 1) as nat);
    }
}

/// The orbit of `c = 2` diverges: the cell has escaped after four steps
/// (`z` runs 2, 6, 38, 1446) and stays at four iterations from then on.
pub proof fn lemma_orbit_of_two_escapes(n: nat)
    requires
        n >= 4,
    ensures
        outside(advanced_by(fresh(2 * ONE, 0), n).z_re, advanced_by(fresh(2 * ONE, 0), n).z_im),
        advanced_by(fresh(2 * ONE, 0), n).iterations == 4,
{
    let c = 2 * ONE;
    let m0 = fresh(c, 0);
    let one = ONE as int;
    let m1 = advanced_by(m0, 1);
    assert(advanced_by(m0, 0) == m0);
    assert(m1.z_re == c && m1.z_im == 0 && m1.iterations == 1);
    let m2 = advanced_by(m0, 2);
    assert(8589934592int * 8589934592int == 73786976294838206464int);
    assert(73786976294838206464int / 4294967296int == 17179869184int);
    assert(m2.z_re == 6 * one && m2.z_im == 0 && m2.iterations == 2);
    let m3 = advanced_by(m0, 3);
    assert(25769803776int * 25769803776int == 664082786653543858176int);
    assert(664082786653543858176int / 4294967296int == 154618822656int);
    assert(m3.z_re == 38 * one && m3.z_im == 0 && m3.iterations == 3);
    let m4 = advanced_by(m0, 4);
    assert(163208757248int * 163208757248int == 26637098442436592533504int);
    assert(26637098442436592533504int / 4294967296int == 6201932775424int);
    assert(m4.z_re == 1446 * one && m4.z_im == 0 && m4.iterations == 4);
    assert(outside(m4.z_re, m4.z_im));
    lemma_advanced_by_add(m0, 4, (n - 4) as nat);
    lemma_escaped_cell_is_frozen(m4, (n - 4) as nat);
}

/// A cell whose `c` lies beyond the limit escapes at its first step and keeps
/// one iteration from then on.
pub proof fn lemma_far_cell_escapes_at_once(c_re: int, c_im: int, n: nat)
    requires
        outside(c_re, c_im),
        n >= 1,
    ensures
        advanced_by(fresh(c_re, c_im), n) == (PointModel {
            c_re,
            c_im,
            z_re: c_re,
            z_im: c_im,
            iterations: 1,
        }),
{
    let m0 = fresh(c_re, c_im);
    let m1 = advanced_by(m0, 1);
    assert(advanced_by(m0, 0) == m0);
    assert(trunc_div(0, ONE as int) == 0);
    assert(m1 == (PointModel { c_re, c_im, z_re: c_re, z_im: c_im, iterations: 1 }));
    lemma_advanced_by_add(m0, 1, (n - 1) as nat);
    lemma_escaped_cell_is_frozen(m1, (n - 1) as nat);
}

/// With `c = 0` the orbit stays at `z = 0`: the cell never escapes and its
/// iteration count is the number of steps taken.
pub proof fn lemma_orbit_of_zero_is_bounded(n: nat)
    ensures
        advanced_by(fresh(0, 0), n) == (PointModel { c_re: 0, c_im: 0, z_re: 0, z_im: 0, iterations: n }),
        !outside(advanced_by(fresh(0, 0), n).z_re, advanced_by(fresh(0, 0), n).z_im),
    decreases n,
{
    if n > 0 {
        lemma_orbit_of_zero_is_bounded((n - 1) as nat);
    }
}

/// Taking `a` steps and then `b` more is taking `a + b` steps.
pub proof fn lemma_advanced_by_add(m: PointModel, a: nat, b: nat)
    ensures
        advanced_by(advanced_by(m, a), b) == advanced_by(m, a + b),
    decreases b,
{
    if b > 0 {
        lemma_advanced_by_add(m, a, (b - 1) as nat);
        assert(advanced_by(m, a + b) == advanced(advanced_by(m, (a + b - 1) as nat)));
    }
}

} // verus!
