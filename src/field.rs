//! The grid of cells over a viewport of the complex plane, stepped on a fixed
//! cadence and drawn into an RGBA8 buffer.
use crate::point::{
    advanced, advanced_by, coord_ok, fresh, model_wf, outside, Point, PointModel, COORD_MAX,
};
use std::time::Duration;
use vstd::prelude::*;

verus! {

/// The tick period, in nanoseconds (50 ms).
pub const TICK_NANOS: u128 = 50_000_000;

/// The initial viewport: real axis [-2.25, 0.75], imaginary axis [-1.25, 1.75].
pub const WIN_MIN_X: i64 = -9_663_676_416;
pub const WIN_MAX_X: i64 = 3_221_225_472;
pub const WIN_MIN_Y: i64 = -5_368_709_120;
pub const WIN_MAX_Y: i64 = 7_516_192_768;

/// The coordinate of grid column (or row) `k` in `[lo, hi]`, scaled by the width `w`.
pub open spec fn cell_coord(lo: int, hi: int, k: int, w: int) -> int {
    lo + (k * (hi - lo)) / w
}

/// The plane coordinates of cell `i` (row-major). Rows are interpolated over the
/// width as well as columns, so a grid taller than it is wide reaches past `y_range`.
pub open spec fn cell_re(w: nat, x_range: (int, int), i: int) -> int {
    cell_coord(x_range.0, x_range.1, i % (w as int), w as int)
}

pub open spec fn cell_im(w: nat, y_range: (int, int), i: int) -> int {
    cell_coord(y_range.0, y_range.1, i / (w as int), w as int)
}

/// Every cell of a `w` by `h` grid over the viewport, each advanced `n` times.
pub open spec fn grid(w: nat, h: nat, x_range: (int, int), y_range: (int, int), n: nat) -> Seq<
    PointModel,
> {
    Seq::new(
        w * h,
        |i: int| advanced_by(fresh(cell_re(w, x_range, i), cell_im(w, y_range, i)), n),
    )
}

/// The viewports that fixed-point coordinates can hold for a `w` by `h` grid: ordered
/// ranges, every bound and every cell coordinate within `COORD_MAX`.
pub open spec fn view_fits(w: nat, h: nat, x_range: (int, int), y_range: (int, int)) -> bool {
    &&& x_range.0 <= x_range.1
    &&& y_range.0 <= y_range.1
    &&& coord_ok(x_range.0) && coord_ok(x_range.1)
    &&& coord_ok(y_range.0) && coord_ok(y_range.1)
    &&& (w > 0 && h > 0 ==> coord_ok(cell_coord(y_range.0, y_range.1, h - 1, w as int)))
}

/// The viewport after a zoom: half the extent, starting a quarter of the way in.
pub open spec fn zoomed(r: (int, int)) -> (int, int) {
    (r.0 + (r.1 - r.0) / 4, r.0 + (r.1 - r.0) / 4 + (r.1 - r.0) / 2)
}

/// The number of ticks that `total` accumulated nanoseconds hold: one for each whole
/// period.
pub open spec fn tick_count(total: nat) -> nat {
    total / (TICK_NANOS as nat)
}

/// The red level of an escaped cell: `255 * count / n`, rounded half up.
pub open spec fn red_level(count: nat, n: nat) -> int {
    ((510 * count + n) / (2 * n)) as int
}

/// The RGBA bytes of a cell after `n` field steps: red by escape time where the cell
/// has escaped, opaque black where it has not or where no step has been taken yet
/// (so that nothing is divided by zero).
pub open spec fn pixel(m: PointModel, n: nat) -> Seq<u8> {
    if outside(m.z_re, m.z_im) && n > 0 {
        seq![red_level(m.iterations, n) as u8, 0u8, 0u8, 255u8]
    } else {
        seq![0u8, 0u8, 0u8, 255u8]
    }
}

/// What a field holds, as mathematical values.
pub struct FieldModel {
    pub width: nat,
    pub height: nat,
    pub x_range: (int, int),
    pub y_range: (int, int),
    pub step: nat,
    pub elapsed: nat,
    pub cells: Seq<PointModel>,
}

/// The field's invariant: every cell is the fresh cell of its coordinate advanced
/// `step` times, and less than one tick is left over.
pub open spec fn field_wf(m: FieldModel) -> bool {
    grid_wf(m) && m.elapsed < TICK_NANOS
}

/// The part of the invariant that concerns the cells.
pub open spec fn grid_wf(m: FieldModel) -> bool {
    &&& view_fits(m.width, m.height, m.x_range, m.y_range)
    &&& m.cells == grid(m.width, m.height, m.x_range, m.y_range, m.step)
    &&& forall|i: int| 0 <= i < m.cells.len() ==> #[trigger] model_wf(m.cells[i])
    &&& forall|i: int| 0 <= i < m.cells.len() ==> #[trigger] m.cells[i].iterations <= m.step
}

pub struct Fractal {
    step: usize,
    data: Vec<Point>,
    elapsed: u128,
    x_range: (i64, i64),
    y_range: (i64, i64),
    width: usize,
    height: usize,
}

impl View for Fractal {
    type V = FieldModel;

    closed spec fn view(&self) -> FieldModel {
        FieldModel {
            width: self.width as nat,
            height: self.height as nat,
            x_range: (self.x_range.0 as int, self.x_range.1 as int),
            y_range: (self.y_range.0 as int, self.y_range.1 as int),
            step: self.step as nat,
            elapsed: self.elapsed as nat,
            cells: self.data@.map_values(|p: Point| p@),
        }
    }
}


/// The field after `nanos` more nanoseconds: the ticks they complete are taken, the
/// rest is carried.
pub open spec fn after_nanos(m: FieldModel, nanos: nat) -> FieldModel {
    let total = m.elapsed + nanos;
    let t = tick_count(total);
    FieldModel {
        step: m.step + t,
        elapsed: (total - t * TICK_NANOS) as nat,
        cells: grid(m.width, m.height, m.x_range, m.y_range, m.step + t),
        ..m
    }
}

/// The field rebuilt over a new viewport: fresh cells, no step taken.
pub open spec fn rebuilt(m: FieldModel, x_range: (int, int), y_range: (int, int)) -> FieldModel {
    FieldModel {
        x_range,
        y_range,
        step: 0,
        cells: grid(m.width, m.height, x_range, y_range, 0),
        ..m
    }
}

/// The length of a duration in nanoseconds.
pub uninterp spec fn nanos_of(d: Duration) -> nat;

/// Relies on `Duration::as_nanos`: the duration as a count of nanoseconds, which
/// depends on the duration alone.
#[verifier::external_body]
fn duration_nanos(d: &Duration) -> (r: u128)
    ensures
        r == nanos_of(*d),
{
    d.as_nanos()
}

proof fn lemma_scaled_index(k: int, k_max: int, e: int, w: int)
    requires
        0 <= k <= k_max,
        e >= 0,
        w > 0,
    ensures
        0 <= (k * e) / w <= (k_max * e) / w,
{
    vstd::arithmetic::mul::lemma_mul_inequality(k, k_max, e);
    vstd::arithmetic::mul::lemma_mul_nonnegative(k, e);
    vstd::arithmetic::div_mod::lemma_div_is_ordered(k * e, k_max * e, w);
    vstd::arithmetic::div_mod::lemma_div_pos_is_pos(k * e, w);
}

proof fn lemma_cell_in_range(w: nat, h: nat, x_range: (int, int), y_range: (int, int), i: int)
    requires
        view_fits(w, h, x_range, y_range),
        0 <= i < w * h,
    ensures
        x_range.0 <= cell_re(w, x_range, i) <= x_range.1,
        coord_ok(cell_re(w, x_range, i)),
        coord_ok(cell_im(w, y_range, i)),
{
    let wi = w as int;
    let hi = h as int;
    assert(wi > 0 && hi > 0) by (nonlinear_arith)
        requires
            0 <= i < wi * hi,
            wi >= 0,
            hi >= 0,
    ;
    vstd::arithmetic::div_mod::lemma_fundamental_div_mod(i, wi);
    vstd::arithmetic::div_mod::lemma_mod_pos_bound(i, wi);
    let x = i % wi;
    let y = i / wi;
    assert(0 <= y < hi) by (nonlinear_arith)
        requires
            i == wi * y + x,
            0 <= x < wi,
            0 <= i < wi * hi,
    ;
    let ex = x_range.1 - x_range.0;
    lemma_scaled_index(x, wi, ex, wi);
    vstd::arithmetic::div_mod::lemma_div_multiples_vanish(ex, wi);
    assert(wi * ex == ex * wi) by (nonlinear_arith);
    lemma_scaled_index(y, hi - 1, y_range.1 - y_range.0, wi);
}

/// `cell_coord(lo, hi, k, w)`, computed without overflow.
fn cell_value(lo: i64, hi: i64, k: usize, w: usize) -> (r: i128)
    requires
        w > 0,
        lo <= hi,
        coord_ok(lo as int),
        coord_ok(hi as int),
    ensures
        r == cell_coord(lo as int, hi as int, k as int, w as int),
{
    let ext = (hi as i128 - lo as i128) as u128;
    proof {
        vstd::arithmetic::mul::lemma_mul_inequality(k as int, usize::MAX as int, ext as int);
        vstd::arithmetic::mul::lemma_mul_nonnegative(k as int, ext as int);
        assert((usize::MAX as int) * (ext as int) <= 0x1_0000_0000_0000_0000 * 0x4000_0000_0000_0000)
            by (nonlinear_arith)
            requires
                ext <= 0x4000_0000_0000_0000,
                usize::MAX <= 0x1_0000_0000_0000_0000,
        ;
    }
    let prod = (k as u128) * ext;
    let q = prod / (w as u128);
    proof {
        vstd::arithmetic::div_mod::lemma_div_is_ordered_by_denominator(prod as int, 1, w as int);
        vstd::arithmetic::div_mod::lemma_div_pos_is_pos(prod as int, w as int);
    }
    lo as i128 + q as i128
}

/// Whether fixed-point coordinates can hold the viewport for a `w` by `h` grid.
pub fn fits(w: usize, h: usize, x_range: (i64, i64), y_range: (i64, i64)) -> (r: bool)
    ensures
        r == view_fits(
            w as nat,
            h as nat,
            (x_range.0 as int, x_range.1 as int),
            (y_range.0 as int, y_range.1 as int),
        ),
{
    if !(x_range.0 <= x_range.1 && y_range.0 <= y_range.1) {
        return false;
    }
    if !(-COORD_MAX <= x_range.0 && x_range.1 <= COORD_MAX && -COORD_MAX <= y_range.0
        && y_range.1 <= COORD_MAX) {
        return false;
    }
    if w == 0 || h == 0 {
        return true;
    }
    let last = cell_value(y_range.0, y_range.1, h - 1, w);
    -(COORD_MAX as i128) <= last && last <= COORD_MAX as i128
}

proof fn lemma_tick_count_step(e: nat)
    requires
        e >= TICK_NANOS,
    ensures
        tick_count(e) >= 1,
        tick_count((e - TICK_NANOS) as nat) + 1 == tick_count(e),
{
    let x = e - TICK_NANOS;
    vstd::arithmetic::div_mod::lemma_div_plus_one(x, TICK_NANOS as int);
    vstd::arithmetic::div_mod::lemma_div_pos_is_pos(x, TICK_NANOS as int);
}

proof fn lemma_red_level_byte(count: nat, n: nat)
    requires
        count <= n,
        n > 0,
    ensures
        0 <= red_level(count, n) <= 255,
{
    let a = 510 * count + n;
    let d = 2 * n;
    vstd::arithmetic::div_mod::lemma_fundamental_div_mod(a as int, d as int);
    vstd::arithmetic::div_mod::lemma_div_pos_is_pos(a as int, d as int);
    let q = a as int / d as int;
    let r = a as int % d as int;
    vstd::arithmetic::div_mod::lemma_mod_pos_bound(a as int, d as int);
    assert(q <= 255) by (nonlinear_arith)
        requires
            a == d * q + r,
            0 <= r,
            a < 256 * d,
            d > 0,
    ;
}

impl Fractal {
    pub open spec fn wf(&self) -> bool {
        &&& field_wf(self@)
        &&& self@.width * self@.height <= usize::MAX
        &&& self@.step <= usize::MAX
    }

    /// A `width` by `height` field over the initial viewport, with no step taken.
    pub fn new(width: usize, height: usize) -> (r: Fractal)
        requires
            width * height <= usize::MAX,
            view_fits(
                width as nat,
                height as nat,
                (WIN_MIN_X as int, WIN_MAX_X as int),
                (WIN_MIN_Y as int, WIN_MAX_Y as int),
            ),
        ensures
            r.wf(),
            r@ == (FieldModel {
                width: width as nat,
                height: height as nat,
                x_range: (WIN_MIN_X as int, WIN_MAX_X as int),
                y_range: (WIN_MIN_Y as int, WIN_MAX_Y as int),
                step: 0,
                elapsed: 0,
                cells: grid(
                    width as nat,
                    height as nat,
                    (WIN_MIN_X as int, WIN_MAX_X as int),
                    (WIN_MIN_Y as int, WIN_MAX_Y as int),
                    0,
                ),
            }),
    {
        let mut f = Fractal {
            width,
            height,
            data: Vec::new(),
            x_range: (WIN_MIN_X, WIN_MAX_X),
            y_range: (WIN_MIN_Y, WIN_MAX_Y),
            step: 0,
            elapsed: 0,
        };
        f.reset_data();
        f
    }

    /// Rebuilds every cell from the viewport and restarts the step count.
    fn reset_data(&mut self)
        requires
            old(self)@.width * old(self)@.height <= usize::MAX,
            view_fits(old(self)@.width, old(self)@.height, old(self)@.x_range, old(self)@.y_range),
        ensures
            final(self)@ == rebuilt(old(self)@, old(self)@.x_range, old(self)@.y_range),
            forall|i: int|
                0 <= i < final(self)@.cells.len() ==> #[trigger] model_wf(final(self)@.cells[i])
                    && final(self)@.cells[i].iterations == 0,
    {
        let n = self.width * self.height;
        let mut data: Vec<Point> = Vec::new();
        let mut idx: usize = 0;
        while idx < n
            invariant
                n == self@.width * self@.height,
                self@ == old(self)@,
                view_fits(self@.width, self@.height, self@.x_range, self@.y_range),
                idx <= n,
                data@.len() == idx,
                forall|j: int|
                    0 <= j < idx ==> (#[trigger] data@[j])@ == fresh(
                        cell_re(self@.width, self@.x_range, j),
                        cell_im(self@.width, self@.y_range, j),
                    ) && data@[j].wf(),
            decreases n - idx,
        {
            proof {
                lemma_cell_in_range(self@.width, self@.height, self@.x_range, self@.y_range, idx as int);
            }
            let x = idx % self.width;
            let y = idx / self.width;
            let re = cell_value(self.x_range.0, self.x_range.1, x, self.width);
            let im = cell_value(self.y_range.0, self.y_range.1, y, self.width);
            data.push(Point::new(re as i64, im as i64));
            idx = idx + 1;
        }
        self.step = 0;
        self.data = data;
        proof {
            assert(self@.cells =~= grid(self@.width, self@.height, self@.x_range, self@.y_range, 0));
        }
    }

    /// The extent of the real axis: `x_max - x_min`.
    pub fn scale_width(&self) -> (r: i64)
        requires
            self.wf(),
        ensures
            r == self@.x_range.1 - self@.x_range.0,
    {
        self.x_range.1 - self.x_range.0
    }

    /// The extent of the imaginary axis: `y_max - y_min`.
    pub fn scale_height(&self) -> (r: i64)
        requires
            self.wf(),
        ensures
            r == self@.y_range.1 - self@.y_range.0,
    {
        self.y_range.1 - self.y_range.0
    }

    /// Zooms in by two on each axis, toward the point a quarter of the way into the
    /// viewport, and rebuilds the cells. A viewport that fixed-point coordinates cannot
    /// hold is never entered: the field is then left as it is.
    pub fn zoom(&mut self)
        requires
            old(self).wf(),
        ensures
            final(self).wf(),
            if view_fits(
                old(self)@.width,
                old(self)@.height,
                zoomed(old(self)@.x_range),
                zoomed(old(self)@.y_range),
            ) {
                final(self)@ == rebuilt(
                    old(self)@,
                    zoomed(old(self)@.x_range),
                    zoomed(old(self)@.y_range),
                )
            } else {
                final(self)@ == old(self)@
            },
    {
        let sw = self.scale_width();
        let sh = self.scale_height();
        let new_x = self.x_range.0 + sw / 4;
        let new_y = self.y_range.0 + sh / 4;
        let x_range = (new_x, new_x + sw / 2);
        let y_range = (new_y, new_y + sh / 2);
        if fits(self.width, self.height, x_range, y_range) {
            self.x_range = x_range;
            self.y_range = y_range;
            self.reset_data();
        }
    }

    /// Moves the viewport by the offsets and rebuilds the cells; with both offsets
    /// zero nothing changes at all. A viewport that fixed-point coordinates cannot hold
    /// is never entered: the field is then left as it is.
    pub fn shift(&mut self, x_off: i64, y_off: i64)
        requires
            old(self).wf(),
        ensures
            final(self).wf(),
            ({
                let m = old(self)@;
                let xr = (m.x_range.0 + x_off, m.x_range.1 + x_off);
                let yr = (m.y_range.0 + y_off, m.y_range.1 + y_off);
                if x_off == 0 && y_off == 0 {
                    final(self)@ == m
                } else if view_fits(m.width, m.height, xr, yr) {
                    final(self)@ == rebuilt(m, xr, yr)
                } else {
                    final(self)@ == m
                }
            }),
    {
        if x_off == 0 && y_off == 0 {
            return;
        }
        let x0 = self.x_range.0 as i128 + x_off as i128;
        let x1 = self.x_range.1 as i128 + x_off as i128;
        let y0 = self.y_range.0 as i128 + y_off as i128;
        let y1 = self.y_range.1 as i128 + y_off as i128;
        let bound = COORD_MAX as i128;
        if -bound <= x0 && x1 <= bound && -bound <= y0 && y1 <= bound {
            let x_range = (x0 as i64, x1 as i64);
            let y_range = (y0 as i64, y1 as i64);
            if fits(self.width, self.height, x_range, y_range) {
                self.x_range = x_range;
                self.y_range = y_range;
                self.reset_data();
            }
        }
    }

    /// One synchronized advance: every cell takes one step.
    fn tick(&mut self)
        requires
            grid_wf(old(self)@),
            old(self)@.step < usize::MAX,
        ensures
            final(self)@ == (FieldModel {
                step: old(self)@.step + 1,
                cells: grid(
                    old(self)@.width,
                    old(self)@.height,
                    old(self)@.x_range,
                    old(self)@.y_range,
                    old(self)@.step + 1,
                ),
                ..old(self)@
            }),
            forall|i: int|
                0 <= i < final(self)@.cells.len() ==> #[trigger] model_wf(final(self)@.cells[i]),
            forall|i: int|
                0 <= i < final(self)@.cells.len() ==> #[trigger] final(self)@.cells[i].iterations
                    <= final(self)@.step,
    {
        let n = self.data.len();
        let mut data: Vec<Point> = Vec::new();
        let mut idx: usize = 0;
        while idx < n
            invariant
                n == self.data@.len(),
                self@ == old(self)@,
                grid_wf(self@),
                self@.step < usize::MAX,
                idx <= n,
                data@.len() == idx,
                forall|j: int|
                    0 <= j < idx ==> (#[trigger] data@[j])@ == advanced(self@.cells[j])
                        && data@[j].wf() && data@[j]@.iterations <= self@.step + 1,
            decreases n - idx,
        {
            let mut p = self.data[idx];
            proof {
                assert(self@.cells[idx as int] == p@);
                assert(model_wf(self@.cells[idx as int]));
                assert(self@.cells[idx as int].iterations <= self@.step);
            }
            p.step();
            data.push(p);
            idx = idx + 1;
        }
        let ghost d = data@;
        self.data = data;
        self.step = self.step + 1;
        proof {
            let m = old(self)@;
            assert(d.len() == m.cells.len());
            assert(self.data@ == d);
            let g = grid(m.width, m.height, m.x_range, m.y_range, m.step + 1);
            assert forall|j: int| 0 <= j < g.len() implies #[trigger] g[j] == advanced(m.cells[j]) by {
                let f = fresh(cell_re(m.width, m.x_range, j), cell_im(m.width, m.y_range, j));
                assert(advanced_by(f, m.step + 1) == advanced(advanced_by(f, m.step)));
            }
            assert forall|j: int| 0 <= j < g.len() implies self@.cells[j] == g[j] by {
                assert(self@.cells[j] == d[j]@);
            }
            assert(self@.cells =~= g);
        }
    }

    /// Adds `nanos` nanoseconds to the accumulated time and takes one tick for each
    /// period that the total exceeds, carrying the rest.
    pub fn advance(&mut self, nanos: u128)
        requires
            old(self).wf(),
            old(self)@.elapsed + nanos <= u128::MAX,
            old(self)@.step + tick_count((old(self)@.elapsed + nanos) as nat) <= usize::MAX,
        ensures
            final(self).wf(),
            final(self)@ == after_nanos(old(self)@, nanos as nat),
    {
        let ghost total = (old(self)@.elapsed + nanos) as nat;
        self.elapsed = self.elapsed + nanos;
        while self.elapsed >= TICK_NANOS
            invariant
                grid_wf(self@),
                self@.width * self@.height <= usize::MAX,
                self@.step + tick_count(self@.elapsed) == old(self)@.step + tick_count(total),
                old(self)@.step + tick_count(total) <= usize::MAX,
                self@.step * TICK_NANOS + self@.elapsed == old(self)@.step * TICK_NANOS + total,
                self@ == (FieldModel { step: self@.step, elapsed: self@.elapsed, cells: self@.cells, ..old(self)@ }),
            decreases self.elapsed,
        {
            proof {
                lemma_tick_count_step(self@.elapsed);
            }
            self.elapsed = self.elapsed - TICK_NANOS;
            self.tick();
        }
        proof {
            let m = old(self)@;
            let t = tick_count(total);
            assert(self@.step == m.step + t);
            assert(self@.elapsed == total - t * TICK_NANOS) by (nonlinear_arith)
                requires
                    self@.step * TICK_NANOS + self@.elapsed == m.step * TICK_NANOS + total,
                    self@.step == m.step + t,
            ;
        }
    }

    /// Adds `dt` to the accumulated time and takes one tick for each whole 50 ms period
    /// that the total holds. Where the count of steps would pass `usize::MAX` the field
    /// is left as it is.
    pub fn step(&mut self, dt: &Duration)
        requires
            old(self).wf(),
        ensures
            final(self).wf(),
            if nanos_of(*dt) <= u128::MAX - TICK_NANOS && old(self)@.step + tick_count(
                (old(self)@.elapsed + nanos_of(*dt)) as nat,
            ) <= usize::MAX {
                final(self)@ == after_nanos(old(self)@, nanos_of(*dt))
            } else {
                final(self)@ == old(self)@
            },
    {
        let nanos = duration_nanos(dt);
        if nanos <= u128::MAX - TICK_NANOS {
            let total = self.elapsed + nanos;
            let ticks: u128 = total / TICK_NANOS;
            if ticks <= (usize::MAX - self.step) as u128 {
                self.advance(nanos);
                return;
            }
        }
    }

    /// Writes the RGBA bytes of cell `index` at `4 * index` in `frame`.
    fn draw_point(&self, frame: &mut [u8], index: usize)
        requires
            self.wf(),
            index < self@.cells.len(),
            old(frame)@.len() == 4 * self@.cells.len(),
        ensures
            final(frame)@.len() == old(frame)@.len(),
            final(frame)@.subrange(4 * index, 4 * index + 4) == pixel(self@.cells[index as int], self@.step),
            forall|p: int|
                0 <= p < old(frame)@.len() && !(4 * index <= p < 4 * index + 4) ==> final(frame)@[p]
                    == old(frame)@[p],
    {
        let data = &self.data[index];
        proof {
            assert(self@.cells[index as int] == data@);
        }
        let red: u8 = if data.is_escaped() && self.step > 0 {
            let count = data.count() as u128;
            let n = self.step as u128;
            proof {
                lemma_red_level_byte(count as nat, n as nat);
            }
            ((510 * count + n) / (2 * n)) as u8
        } else {
            0
        };
        let len = frame.len();
        assert(4 * index + 3 < len);
        let base = 4 * index;
        frame[base] = red;
        frame[base + 1] = 0;
        frame[base + 2] = 0;
        frame[base + 3] = 0xFF;
        proof {
            assert(frame@.subrange(4 * index, 4 * index + 4) =~= pixel(self@.cells[index as int], self@.step));
        }
    }

    /// Fills `frame` with the RGBA8 pixels of the grid, row-major: black where a cell
    /// has not escaped, red by escape time where it has.
    pub fn draw(&self, frame: &mut [u8])
        requires
            self.wf(),
            old(frame)@.len() == 4 * (self@.width * self@.height),
        ensures
            final(frame)@.len() == old(frame)@.len(),
            forall|i: int|
                0 <= i < self@.width * self@.height ==> final(frame)@.subrange(4 * i, 4 * i + 4)
                    == #[trigger] pixel(self@.cells[i], self@.step),
    {
        let n = self.data.len();
        proof {
            assert(self@.cells.len() == n);
            assert(self@.cells.len() == self@.width * self@.height);
        }
        let mut index: usize = 0;
        while index < n
            invariant
                self.wf(),
                n == self@.cells.len(),
                n == self@.width * self@.height,
                index <= n,
                frame@.len() == 4 * n,
                forall|i: int|
                    0 <= i < index ==> frame@.subrange(4 * i, 4 * i + 4)
                        == #[trigger] pixel(self@.cells[i], self@.step),
            decreases n - index,
        {
            let ghost before = frame@;
            self.draw_point(frame, index);
            proof {
                assert forall|i: int| 0 <= i < index + 1 implies frame@.subrange(4 * i, 4 * i + 4)
                    == #[trigger] pixel(self@.cells[i], self@.step) by {
                    if i < index {
                        assert(frame@.subrange(4 * i, 4 * i + 4) =~= before.subrange(4 * i, 4 * i + 4));
                    }
                }
            }
            index = index + 1;
        }
    }
}

/// Two zooms leave a quarter of the extent on an axis (rounded down, as halving a
/// fixed-point extent is).
pub proof fn lemma_two_zooms_quarter_extent(r: (int, int))
    requires
        r.0 <= r.1,
    ensures
        zoomed(zoomed(r)).1 - zoomed(zoomed(r)).0 == (r.1 - r.0) / 4,
{
    vstd::arithmetic::div_mod::lemma_div_denominator(r.1 - r.0, 2, 2);
}

/// Cell by cell, the cells of `n + 1` steps are those of `n` steps advanced once.
proof fn lemma_grid_next(w: nat, h: nat, x_range: (int, int), y_range: (int, int), n: nat)
    ensures
        forall|i: int|
            0 <= i < w * h ==> #[trigger] grid(w, h, x_range, y_range, n + 1)[i] == advanced(
                grid(w, h, x_range, y_range, n)[i],
            ),
{
    assert forall|i: int| 0 <= i < w * h implies #[trigger] grid(w, h, x_range, y_range, n + 1)[i]
        == advanced(grid(w, h, x_range, y_range, n)[i]) by {
        let f = fresh(cell_re(w, x_range, i), cell_im(w, y_range, i));
        assert(advanced_by(f, n + 1) == advanced(advanced_by(f, n)));
    }
}

/// One more period takes exactly one tick, from rest or with time carried over: the
/// step count grows by one, the carried time is unchanged, and every cell that has not
/// escaped counts one more iteration while the escaped ones stay as they are.
pub proof fn lemma_one_more_period(m: FieldModel)
    requires
        field_wf(m),
    ensures
        after_nanos(m, TICK_NANOS as nat).step == m.step + 1,
        after_nanos(m, TICK_NANOS as nat).elapsed == m.elapsed,
        forall|i: int|
            0 <= i < m.cells.len() ==> #[trigger] after_nanos(m, TICK_NANOS as nat).cells[i]
                == advanced(m.cells[i]),
        forall|i: int|
            0 <= i < m.cells.len() && !outside(m.cells[i].z_re, m.cells[i].z_im)
                ==> #[trigger] after_nanos(m, TICK_NANOS as nat).cells[i].iterations
                == m.cells[i].iterations + 1,
        forall|i: int|
            0 <= i < m.cells.len() && outside(m.cells[i].z_re, m.cells[i].z_im)
                ==> #[trigger] after_nanos(m, TICK_NANOS as nat).cells[i] == m.cells[i],
{
    let x = m.elapsed as int;
    vstd::arithmetic::div_mod::lemma_div_plus_one(x, TICK_NANOS as int);
    assert(x / (TICK_NANOS as int) == 0);
    lemma_grid_next(m.width, m.height, m.x_range, m.y_range, m.step);
}

/// From no carried time, two and a half periods take exactly two ticks and carry half
/// a period; every cell is advanced twice.
pub proof fn lemma_two_and_a_half_periods(m: FieldModel)
    requires
        field_wf(m),
        m.elapsed == 0,
    ensures
        after_nanos(m, (5 * TICK_NANOS / 2) as nat).step == m.step + 2,
        after_nanos(m, (5 * TICK_NANOS / 2) as nat).elapsed == TICK_NANOS / 2,
        forall|i: int|
            0 <= i < m.cells.len() ==> #[trigger] after_nanos(m, (5 * TICK_NANOS / 2) as nat).cells[i]
                == advanced(advanced(m.cells[i])),
{
    let (w, h, xr, yr) = (m.width, m.height, m.x_range, m.y_range);
    lemma_grid_next(w, h, xr, yr, m.step);
    lemma_grid_next(w, h, xr, yr, m.step + 1);
    let after = after_nanos(m, (5 * TICK_NANOS / 2) as nat);
    assert(after.cells == grid(w, h, xr, yr, (m.step + 1) + 1));
    assert forall|i: int| 0 <= i < m.cells.len() implies #[trigger] after.cells[i] == advanced(
        advanced(m.cells[i]),
    ) by {
        assert(grid(w, h, xr, yr, (m.step + 1) + 1)[i] == advanced(grid(w, h, xr, yr, m.step + 1)[i]));
        assert(grid(w, h, xr, yr, m.step + 1)[i] == advanced(grid(w, h, xr, yr, m.step)[i]));
    }
}

/// Before any step every pixel is opaque black.
pub proof fn lemma_unstepped_field_is_black(m: FieldModel)
    requires
        field_wf(m),
        m.step == 0,
    ensures
        forall|i: int|
            0 <= i < m.cells.len() ==> #[trigger] pixel(m.cells[i], m.step) == seq![
                0u8,
                0u8,
                0u8,
                255u8,
            ],
{
}

/// A drawn frame is determined by the field's model: two frames drawn from fields
/// with the same model hold the same bytes, whatever they held before.
pub proof fn lemma_frame_is_determined(m: FieldModel, b1: Seq<u8>, b2: Seq<u8>)
    requires
        field_wf(m),
        b1.len() == 4 * (m.width * m.height),
        b2.len() == 4 * (m.width * m.height),
        forall|i: int|
            0 <= i < m.width * m.height ==> b1.subrange(4 * i, 4 * i + 4) == #[trigger] pixel(
                m.cells[i],
                m.step,
            ),
        forall|i: int|
            0 <= i < m.width * m.height ==> b2.subrange(4 * i, 4 * i + 4) == #[trigger] pixel(
                m.cells[i],
                m.step,
            ),
    ensures
        b1 == b2,
{
    assert forall|p: int| 0 <= p < b1.len() implies b1[p] == b2[p] by {
        let i = p / 4;
        let k = p % 4;
        assert(0 <= i < m.width * m.height);
        let px = pixel(m.cells[i], m.step);
        assert(b1.subrange(4 * i, 4 * i + 4)[k] == b1[p]);
        assert(b2.subrange(4 * i, 4 * i + 4)[k] == b2[p]);
    }
    assert(b1 =~= b2);
}

} // verus!
