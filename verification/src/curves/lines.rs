//! Straight line segments as implicit curves.

use vstd::prelude::*;

use crate::curves::{int_abs, Curve, Point, Ratio};

verus! {

/// Bound on coordinates accepted by [`AngledLine::new`], keeping every
/// intermediate product of the equation within `i64`.
pub const COORD_LIMIT: u32 = 0xFFFF;

proof fn lemma_mul_bound(a: int, b: int, m: int)
    requires
        int_abs(a) <= m,
        int_abs(b) <= m,
        0 <= m,
    ensures
        -(m * m) <= a * b <= m * m,
{
    assert(-(m * m) <= a * b <= m * m) by (nonlinear_arith)
        requires
            -m <= a <= m,
            -m <= b <= m,
            0 <= m,
    ;
}

/// Floor of the square root.
fn isqrt64(n: u64) -> (r: u64)
    requires
        n <= 0x3FFF_FFFF_FFFF_FFFF,
    ensures
        r * r <= n,
        n < (r + 1) * (r + 1),
        r <= 0x8000_0000,
{
    let mut r: u64 = 0;
    loop
        invariant
            n <= 0x3FFF_FFFF_FFFF_FFFF,
            r * r <= n,
            r <= n,
            r <= 0x8000_0000,
        ensures
            r * r <= n,
            n < (r + 1) * (r + 1),
            r <= 0x8000_0000,
        decreases n - r,
    {
        let next: u64 = r + 1;
        proof {
            assert(next * next <= 0x4000_0001_0000_0001) by (nonlinear_arith)
                requires
                    next <= 0x8000_0001,
            ;
        }
        if next * next > n {
            break;
        }
        r = next;
        proof {
            assert(r <= n) by (nonlinear_arith)
                requires
                    r * r <= n,
                    r >= 1,
            ;
            assert(r <= 0x8000_0000) by (nonlinear_arith)
                requires
                    r * r <= n,
                    n <= 0x3FFF_FFFF_FFFF_FFFF,
                    r >= 0,
            ;
        }
    }
    r
}

/// A straight segment between two points, as the implicit curve
/// `dx * (y - start.y) - (x - start.x) * dy = 0`.
pub struct AngledLine {
    pub start: Point,
    pub stop: Point,
    pub dx: i64,
    pub dy: i64,
    pub aa_threshold: i64,
}

/// Squared euclidean length of the segment.
pub open spec fn line_sq_len(start: Point, stop: Point) -> int {
    let dx = stop.x - start.x;
    let dy = stop.y - start.y;
    dx * dx + dy * dy
}

impl AngledLine {
    /// Build a line from `start` to `stop`; the anti-aliasing threshold is
    /// the euclidean length of the segment, rounded down.
    pub fn new(start: Point, stop: Point) -> (r: Self)
        requires
            start.x <= COORD_LIMIT,
            start.y <= COORD_LIMIT,
            stop.x <= COORD_LIMIT,
            stop.y <= COORD_LIMIT,
        ensures
            r.inv(),
            r.spec_start() == start,
            r.spec_stop() == stop,
            r.aa_threshold * r.aa_threshold <= line_sq_len(start, stop),
            line_sq_len(start, stop) < (r.aa_threshold + 1) * (r.aa_threshold + 1),
    {
        let dx: i64 = stop.x as i64 - start.x as i64;
        let dy: i64 = stop.y as i64 - start.y as i64;
        proof {
            lemma_mul_bound(dx as int, dx as int, COORD_LIMIT as int);
            lemma_mul_bound(dy as int, dy as int, COORD_LIMIT as int);
            assert(dx * dx >= 0) by (nonlinear_arith);
            assert(dy * dy >= 0) by (nonlinear_arith);
        }
        let sq: u64 = (dx * dx + dy * dy) as u64;
        let aa_threshold: i64 = isqrt64(sq) as i64;
        proof {
            assert(aa_threshold * aa_threshold <= sq as int);
            assert((sq as int) < (aa_threshold + 1) * (aa_threshold + 1));
        }
        AngledLine { start, stop, dx, dy, aa_threshold }
    }
}

/// The line's implicit equation vanishes at both endpoints: the curve
/// passes through its start and stop.
pub proof fn lemma_line_endpoints(line: &AngledLine)
    requires
        line.inv(),
    ensures
        line.eq_num(line.spec_start()) == 0,
        line.eq_num(line.spec_stop()) == 0,
{
    let dx = line.stop.x - line.start.x;
    let dy = line.stop.y - line.start.y;
    assert(dx * 0 - 0 * dy == 0) by (nonlinear_arith);
    assert(dx * dy - dx * dy == 0) by (nonlinear_arith);
}

impl Curve for AngledLine {
    open spec fn inv(&self) -> bool {
        &&& self.start.x <= COORD_LIMIT
        &&& self.start.y <= COORD_LIMIT
        &&& self.stop.x <= COORD_LIMIT
        &&& self.stop.y <= COORD_LIMIT
        &&& self.dx == self.stop.x - self.start.x
        &&& self.dy == self.stop.y - self.start.y
        &&& self.aa_threshold * self.aa_threshold <= line_sq_len(self.start, self.stop)
        &&& line_sq_len(self.start, self.stop) < (self.aa_threshold + 1) * (self.aa_threshold + 1)
        &&& self.aa_threshold >= 0
    }

    open spec fn spec_start(&self) -> Point {
        self.start
    }

    open spec fn spec_stop(&self) -> Point {
        self.stop
    }

    open spec fn eq_num(&self, p: Point) -> int {
        self.dx * (p.y - self.start.y) - (p.x - self.start.x) * self.dy
    }

    open spec fn eq_den(&self, p: Point) -> int {
        1
    }

    open spec fn thr_num(&self) -> int {
        self.aa_threshold as int
    }

    open spec fn thr_den(&self) -> int {
        1
    }

    proof fn lemma_eq_den_pos(&self, p: Point) {
    }

    proof fn lemma_thr_wf(&self) {
        let dx = self.stop.x - self.start.x;
        let dy = self.stop.y - self.start.y;
        if self.aa_threshold == 0 {
            assert(dx == 0 && dy == 0) by (nonlinear_arith)
                requires
                    dx * dx + dy * dy < (self.aa_threshold + 1) * (self.aa_threshold + 1),
                    self.aa_threshold == 0,
            ;
            assert(self.start == self.stop);
        }
    }

    fn start(&self) -> (r: Point) {
        self.start
    }

    fn stop(&self) -> (r: Point) {
        self.stop
    }

    fn equation(&self, point: &Point) -> (r: Ratio) {
        let lx: i64 = point.x as i64 - self.start.x as i64;
        let ly: i64 = point.y as i64 - self.start.y as i64;
        proof {
            lemma_mul_bound(self.dx as int, ly as int, 2 * COORD_LIMIT as int);
            lemma_mul_bound(lx as int, self.dy as int, 2 * COORD_LIMIT as int);
        }
        Ratio { num: self.dx * ly - lx * self.dy, den: 1 }
    }

    fn antialiased_threshold(&self) -> (r: Ratio) {
        proof {
            let dx = self.stop.x - self.start.x;
            let dy = self.stop.y - self.start.y;
            assert(dx * dx + dy * dy <= 2 * 0xFFFF * 0xFFFF) by (nonlinear_arith)
                requires
                    -0xFFFF <= dx <= 0xFFFF,
                    -0xFFFF <= dy <= 0xFFFF,
            ;
            assert(self.aa_threshold <= 0x1_0000_0000) by (nonlinear_arith)
                requires
                    self.aa_threshold * self.aa_threshold <= 2 * 0xFFFF * 0xFFFF,
                    self.aa_threshold >= 0,
            ;
        }
        Ratio { num: self.aa_threshold, den: 1 }
    }
}

} // verus!
