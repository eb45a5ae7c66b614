//! The curve abstraction and the generic rasterizer that walks a curve
//! from its start point to its stop point, one pixel at a time.

pub mod lines;
pub mod sine;

use vstd::prelude::*;

use crate::canvas::hline_covers;
use crate::canvas::XYDrawable;

verus! {

/// Cartesian pixel coordinate; `y` grows upward.
#[derive(Debug, Clone, Copy, PartialEq, Eq, Structural)]
pub struct Point {
    pub x: u32,
    pub y: u32,
}

impl Point {
    pub fn new(x: u32, y: u32) -> (p: Point)
        ensures
            p == (Point { x, y }),
    {
        Point { x, y }
    }
}

/// Compass class of a curve's overall direction, fixed for a whole traversal.
#[derive(Debug, Clone, Copy, PartialEq, Eq, Structural)]
pub enum Slope {
    NorthEast,
    SouthEast,
    SouthWest,
    NorthWest,
}

/// Direction class between two points: `x` not-greater folds into the west
/// classes, and within an east/west class `y` not-less folds into the south
/// classes.
pub open spec fn slope_between(start: Point, stop: Point) -> Slope {
    if start.x < stop.x {
        if start.y < stop.y {
            Slope::NorthEast
        } else {
            Slope::SouthEast
        }
    } else {
        if start.y < stop.y {
            Slope::NorthWest
        } else {
            Slope::SouthWest
        }
    }
}

impl Slope {
    /// The three candidate next points for this direction class, in the fixed
    /// enumeration order that the walk's tie-break rule relies on.
    pub open spec fn spec_next(self, p: Point) -> Seq<Point> {
        match self {
            Slope::NorthEast => seq![
                Point { x: p.x, y: (p.y + 1) as u32 },
                Point { x: (p.x + 1) as u32, y: (p.y + 1) as u32 },
                Point { x: (p.x + 1) as u32, y: p.y },
            ],
            Slope::SouthEast => seq![
                Point { x: (p.x + 1) as u32, y: p.y },
                Point { x: (p.x + 1) as u32, y: (p.y - 1) as u32 },
                Point { x: p.x, y: (p.y - 1) as u32 },
            ],
            Slope::SouthWest => seq![
                Point { x: p.x, y: (p.y - 1) as u32 },
                Point { x: (p.x - 1) as u32, y: (p.y - 1) as u32 },
                Point { x: (p.x - 1) as u32, y: p.y },
            ],
            Slope::NorthWest => seq![
                Point { x: (p.x - 1) as u32, y: p.y },
                Point { x: (p.x - 1) as u32, y: (p.y + 1) as u32 },
                Point { x: p.x, y: (p.y + 1) as u32 },
            ],
        }
    }

    /// Select the three possible next points, in the order fixed by
    /// [`Slope::spec_next`].
    pub fn next(&self, point: &Point) -> (r: [Point; 3])
        requires
            match *self {
                Slope::NorthEast => point.x < u32::MAX && point.y < u32::MAX,
                Slope::SouthEast => point.x < u32::MAX && point.y > 0,
                Slope::SouthWest => point.x > 0 && point.y > 0,
                Slope::NorthWest => point.x > 0 && point.y < u32::MAX,
            },
        ensures
            r@ == self.spec_next(*point),
    {
        let x = point.x;
        let y = point.y;
        let r = match self {
            Slope::NorthEast => [
                Point::new(x, y + 1),
                Point::new(x + 1, y + 1),
                Point::new(x + 1, y),
            ],
            Slope::SouthEast => [
                Point::new(x + 1, y),
                Point::new(x + 1, y - 1),
                Point::new(x, y - 1),
            ],
            Slope::SouthWest => [
                Point::new(x, y - 1),
                Point::new(x - 1, y - 1),
                Point::new(x - 1, y),
            ],
            Slope::NorthWest => [
                Point::new(x - 1, y),
                Point::new(x - 1, y + 1),
                Point::new(x, y + 1),
            ],
        };
        proof {
            assert(r@ =~= self.spec_next(*point));
        }
        r
    }

    /// Direction class of the segment from `start` to `stop`.
    pub fn between(start: &Point, stop: &Point) -> (r: Self)
        ensures
            r == slope_between(*start, *stop),
    {
        if start.x < stop.x {
            if start.y < stop.y {
                Slope::NorthEast
            } else {
                Slope::SouthEast
            }
        } else if start.y < stop.y {
            Slope::NorthWest
        } else {
            Slope::SouthWest
        }
    }
}

/// Exact value of a curve's implicit equation at a pixel, as the rational
/// `num / den` with a positive denominator.
#[derive(Debug, Clone, Copy, PartialEq, Eq, Structural)]
pub struct Ratio {
    pub num: i64,
    pub den: i64,
}

pub open spec fn int_abs(n: int) -> int {
    if n < 0 {
        -n
    } else {
        n
    }
}

/// `|a| < |b|` as rationals, assuming both denominators are positive.
pub open spec fn ratio_abs_lt(a: Ratio, b: Ratio) -> bool {
    int_abs(a.num as int) * (b.den as int) < int_abs(b.num as int) * (a.den as int)
}

/// Range of a product from ranges of its factors.
pub proof fn lemma_mul_range(a: int, am: int, b: int, bm: int)
    requires
        -am <= a <= am,
        -bm <= b <= bm,
        0 <= am,
        0 <= bm,
    ensures
        -(am * bm) <= a * b <= am * bm,
{
    assert(-(am * bm) <= a * b <= am * bm) by (nonlinear_arith)
        requires
            -am <= a <= am,
            -bm <= b <= bm,
            0 <= am,
            0 <= bm,
    ;
}

proof fn lemma_mul_le(a: int, am: int, b: int, bm: int)
    requires
        0 <= a <= am,
        0 <= b <= bm,
    ensures
        a * b <= am * bm,
{
    assert(a * b <= am * bm) by (nonlinear_arith)
        requires
            0 <= a <= am,
            0 <= b <= bm,
    ;
}

/// Compare the magnitudes of two exact rationals by cross-multiplication.
pub fn abs_less(a: &Ratio, b: &Ratio) -> (r: bool)
    requires
        a.den > 0,
        b.den > 0,
    ensures
        r == ratio_abs_lt(*a, *b),
{
    let an: i128 = if a.num < 0 {
        -(a.num as i128)
    } else {
        a.num as i128
    };
    let bn: i128 = if b.num < 0 {
        -(b.num as i128)
    } else {
        b.num as i128
    };
    proof {
        lemma_mul_le(an as int, 0x8000_0000_0000_0000, b.den as int, 0x7FFF_FFFF_FFFF_FFFF);
        lemma_mul_le(bn as int, 0x8000_0000_0000_0000, a.den as int, 0x7FFF_FFFF_FFFF_FFFF);
    }
    an * (b.den as i128) < bn * (a.den as i128)
}

/// Smallest `x` coordinate of the walk box.
pub open spec fn box_x_min(start: Point, stop: Point) -> int {
    if start.x <= stop.x {
        start.x as int
    } else {
        stop.x as int
    }
}

/// Smallest `y` coordinate of the walk box.
pub open spec fn box_y_min(start: Point, stop: Point) -> int {
    if start.y <= stop.y {
        start.y as int
    } else {
        stop.y as int
    }
}

/// The axis-aligned bounding box of a traversal from `start` to `stop`;
/// the walk never leaves it.
pub open spec fn in_walk_box(start: Point, stop: Point, p: Point) -> bool {
    &&& box_x_min(start, stop) <= p.x <= box_x_max(start, stop)
    &&& box_y_min(start, stop) <= p.y <= box_y_max(start, stop)
}

/// At most one pixel outside the walk box on either axis: the region on
/// which the anti-aliased draw evaluates the equation, since it also
/// paints the unclamped neighbours of every visited pixel.
pub open spec fn near_walk_box(start: Point, stop: Point, p: Point) -> bool {
    &&& box_x_min(start, stop) - 1 <= p.x <= box_x_max(start, stop) + 1
    &&& box_y_min(start, stop) - 1 <= p.y <= box_y_max(start, stop) + 1
}

/// Taxicab distance from `p` to `stop`: the walk's termination measure.
pub open spec fn l1_to_stop(stop: Point, p: Point) -> int {
    int_abs(stop.x - p.x) + int_abs(stop.y - p.y)
}

/// A shape given by an implicit equation that is zero on the curve, with
/// known endpoints and a known anti-aliasing threshold.
///
/// The equation is exposed as an exact rational so that the rasterizer's
/// choice among candidate pixels is a mathematical function of the curve.
pub trait Curve: Sized {
    /// Well-formedness of the curve value.
    spec fn inv(&self) -> bool;

    spec fn spec_start(&self) -> Point;

    spec fn spec_stop(&self) -> Point;

    /// Numerator of the implicit equation at `p`.
    spec fn eq_num(&self, p: Point) -> int;

    /// Positive denominator of the implicit equation at `p`.
    spec fn eq_den(&self, p: Point) -> int;

    /// Numerator of the anti-aliasing threshold.
    spec fn thr_num(&self) -> int;

    /// Positive denominator of the anti-aliasing threshold.
    spec fn thr_den(&self) -> int;

    /// The equation's denominator is positive everywhere.
    proof fn lemma_eq_den_pos(&self, p: Point)
        requires
            self.inv(),
        ensures
            self.eq_den(p) > 0,
    ;

    /// The threshold is a rational of at least one.
    proof fn lemma_thr_wf(&self)
        requires
            self.inv(),
            self.spec_start() != self.spec_stop(),
        ensures
            self.thr_den() > 0,
            self.thr_num() >= self.thr_den(),
    ;

    fn start(&self) -> (r: Point)
        requires
            self.inv(),
        ensures
            r == self.spec_start(),
    ;

    fn stop(&self) -> (r: Point)
        requires
            self.inv(),
        ensures
            r == self.spec_stop(),
    ;

    /// Implicit equation of the curve, `f(x, y) = 0` on the curve itself.
    /// It is evaluable on the walk box and one pixel around it, and its
    /// magnitudes stay small enough that the anti-aliasing arithmetic is
    /// exact in 128 bits.
    fn equation(&self, point: &Point) -> (r: Ratio)
        requires
            self.inv(),
            near_walk_box(self.spec_start(), self.spec_stop(), *point),
        ensures
            r.num as int == self.eq_num(*point),
            r.den as int == self.eq_den(*point),
            int_abs(r.num as int) <= 0x20_0000_0000_0000,
            0 < r.den as int <= 0x10_0000_0000,
    ;

    /// Threshold used by the anti-aliased draw: a pixel whose equation
    /// magnitude exceeds it is painted with the full background intensity.
    fn antialiased_threshold(&self) -> (r: Ratio)
        requires
            self.inv(),
        ensures
            r.num as int == self.thr_num(),
            r.den as int == self.thr_den(),
            0 <= r.num as int <= 0x1_0000_0000,
            0 < r.den as int <= 0x1_0000_0000,
    ;
}

/// `|equation(a)| < |equation(b)|` for a curve, as exact rationals.
pub open spec fn eq_abs_lt<C: Curve>(c: &C, a: Point, b: Point) -> bool {
    int_abs(c.eq_num(a)) * c.eq_den(b) < int_abs(c.eq_num(b)) * c.eq_den(a)
}

/// The candidates of [`Slope::spec_next`] restricted to the walk box: once
/// the current point agrees with `stop` on one axis, only the candidate
/// moving along the other axis remains.
pub open spec fn spec_step_candidates(start: Point, stop: Point, cur: Point) -> Seq<Point> {
    let slope = slope_between(start, stop);
    match slope {
        Slope::NorthEast => if cur.x == stop.x {
            seq![Point { x: cur.x, y: (cur.y + 1) as u32 }]
        } else if cur.y == stop.y {
            seq![Point { x: (cur.x + 1) as u32, y: cur.y }]
        } else {
            slope.spec_next(cur)
        },
        Slope::SouthEast => if cur.y == stop.y {
            seq![Point { x: (cur.x + 1) as u32, y: cur.y }]
        } else if cur.x == stop.x {
            seq![Point { x: cur.x, y: (cur.y - 1) as u32 }]
        } else {
            slope.spec_next(cur)
        },
        Slope::SouthWest => if cur.x == stop.x {
            seq![Point { x: cur.x, y: (cur.y - 1) as u32 }]
        } else if cur.y == stop.y {
            seq![Point { x: (cur.x - 1) as u32, y: cur.y }]
        } else {
            slope.spec_next(cur)
        },
        Slope::NorthWest => if cur.y == stop.y {
            seq![Point { x: (cur.x - 1) as u32, y: cur.y }]
        } else if cur.x == stop.x {
            seq![Point { x: cur.x, y: (cur.y + 1) as u32 }]
        } else {
            slope.spec_next(cur)
        },
    }
}

/// First-encountered minimum of `|equation|` over a candidate sequence.
pub open spec fn spec_choose<C: Curve>(c: &C, s: Seq<Point>) -> Point
    decreases s.len(),
{
    if s.len() <= 1 {
        s[0]
    } else {
        let b = spec_choose(c, s.take(s.len() - 1));
        if eq_abs_lt(c, s.last(), b) {
            s.last()
        } else {
            b
        }
    }
}

proof fn lemma_choose_contains<C: Curve>(c: &C, s: Seq<Point>)
    requires
        s.len() >= 1,
    ensures
        s.contains(spec_choose(c, s)),
    decreases s.len(),
{
    if s.len() == 1 {
        assert(spec_choose(c, s) == s[0]);
    } else {
        let t = s.take(s.len() - 1);
        lemma_choose_contains(c, t);
        let b = spec_choose(c, t);
        let i = choose|i: int| 0 <= i < t.len() && t[i] == b;
        assert(s[i] == b);
        if !eq_abs_lt(c, s.last(), b) {
            assert(s.contains(b));
        }
    }
}

/// The next point of the walk: the best candidate by equation magnitude,
/// ties broken in favour of the earlier candidate.
pub open spec fn spec_step<C: Curve>(c: &C, cur: Point) -> Point {
    spec_choose(c, spec_step_candidates(c.spec_start(), c.spec_stop(), cur))
}

/// Every clamped candidate stays in the walk box and moves strictly closer
/// to the stop point, and so does the chosen step.
proof fn lemma_step_props<C: Curve>(c: &C, cur: Point)
    requires
        c.inv(),
        in_walk_box(c.spec_start(), c.spec_stop(), cur),
        cur != c.spec_stop(),
    ensures
        spec_step_candidates(c.spec_start(), c.spec_stop(), cur).len() >= 1,
        forall|j: int|
            0 <= j < spec_step_candidates(c.spec_start(), c.spec_stop(), cur).len() ==> {
                let cand = #[trigger] spec_step_candidates(c.spec_start(), c.spec_stop(), cur)[j];
                in_walk_box(c.spec_start(), c.spec_stop(), cand) && walk_step_ok(
                    c.spec_stop(),
                    cur,
                    cand,
                )
            },
        in_walk_box(c.spec_start(), c.spec_stop(), spec_step(c, cur)),
        walk_step_ok(c.spec_stop(), cur, spec_step(c, cur)),
        l1_to_stop(c.spec_stop(), spec_step(c, cur)) < l1_to_stop(c.spec_stop(), cur),
{
    let start = c.spec_start();
    let stop = c.spec_stop();
    let cands = spec_step_candidates(start, stop, cur);
    lemma_choose_contains(c, cands);
}

/// Chebyshev distance from `p` to `stop`: a lower bound on the number of
/// steps any 8-connected path still needs.
pub open spec fn linf_to_stop(stop: Point, p: Point) -> int {
    if int_abs(stop.x - p.x) >= int_abs(stop.y - p.y) {
        int_abs(stop.x - p.x)
    } else {
        int_abs(stop.y - p.y)
    }
}

/// One admissible step of the walk: `q` is 8-adjacent to `p`, distinct from
/// it, and moves toward `stop` on both axes (never backtracking).
pub open spec fn walk_step_ok(stop: Point, p: Point, q: Point) -> bool {
    &&& int_abs(q.x - p.x) <= 1
    &&& int_abs(q.y - p.y) <= 1
    &&& q != p
    &&& int_abs(stop.x - q.x) <= int_abs(stop.x - p.x)
    &&& int_abs(stop.y - q.y) <= int_abs(stop.y - p.y)
    &&& l1_to_stop(stop, q) < l1_to_stop(stop, p)
}

/// The pixel path of the walk from `cur` to the curve's stop point.
pub open spec fn spec_walk<C: Curve>(c: &C, cur: Point) -> Seq<Point>
    decreases l1_to_stop(c.spec_stop(), cur),
    when c.inv() && in_walk_box(c.spec_start(), c.spec_stop(), cur)
    via spec_walk_decreases::<C>
{
    if cur == c.spec_stop() {
        seq![cur]
    } else {
        seq![cur] + spec_walk(c, spec_step(c, cur))
    }
}

#[via_fn]
proof fn spec_walk_decreases<C: Curve>(c: &C, cur: Point) {
    if c.inv() && in_walk_box(c.spec_start(), c.spec_stop(), cur) && cur != c.spec_stop() {
        lemma_step_props(c, cur);
    }
}

/// Ordering of two non-negative rationals carries over to their floors.
proof fn lemma_div_cross(n: int, d: int, tn: int, td: int)
    requires
        d > 0,
        td > 0,
        0 <= n,
        n * td <= tn * d,
    ensures
        n / d <= tn / td,
{
    vstd::arithmetic::div_mod::lemma_fundamental_div_mod(n, d);
    vstd::arithmetic::div_mod::lemma_fundamental_div_mod(tn, td);
    let q1 = n / d;
    let r1 = n % d;
    let q2 = tn / td;
    let r2 = tn % td;
    if q1 > q2 {
        assert(false) by (nonlinear_arith)
            requires
                n == d * q1 + r1,
                0 <= r1 < d,
                tn == td * q2 + r2,
                0 <= r2 < td,
                d > 0,
                td > 0,
                q1 >= q2 + 1,
                n * td <= tn * d,
                0 <= n,
        ;
    }
}

/// Intensity painted by the anti-aliased draw at `p`: full background when
/// the equation magnitude exceeds the threshold, else the magnitude scaled
/// by 255 against the threshold, rounded down once.
pub open spec fn spec_aa_value<C: Curve>(c: &C, p: Point) -> int {
    let n = int_abs(c.eq_num(p));
    let d = c.eq_den(p);
    let tn = c.thr_num();
    let td = c.thr_den();
    if n * td > tn * d {
        255
    } else {
        (n * 255 * td) / (d * tn)
    }
}

/// Value to set a pixel to when using anti-aliasing: 255 beyond the
/// threshold, zero on the curve itself, proportional in between.
pub fn antialiased_value<C: Curve>(curve: &C, point: &Point) -> (r: u8)
    requires
        curve.inv(),
        curve.spec_start() != curve.spec_stop(),
        near_walk_box(curve.spec_start(), curve.spec_stop(), *point),
    ensures
        r as int == spec_aa_value(curve, *point),
        int_abs(curve.eq_num(*point)) * curve.thr_den() > curve.thr_num() * curve.eq_den(*point)
            ==> r == 255,
        curve.eq_num(*point) == 0 ==> r == 0,
{
    let v = curve.equation(point);
    let t = curve.antialiased_threshold();
    proof {
        curve.lemma_eq_den_pos(*point);
        curve.lemma_thr_wf();
    }
    let n: i128 = if v.num < 0 {
        -(v.num as i128)
    } else {
        v.num as i128
    };
    let d: i128 = v.den as i128;
    let tn: i128 = t.num as i128;
    let td: i128 = t.den as i128;
    proof {
        lemma_mul_le(n as int, 0x20_0000_0000_0000, td as int, 0x1_0000_0000);
        lemma_mul_le(tn as int, 0x1_0000_0000, d as int, 0x10_0000_0000);
        assert(tn * d > 0) by (nonlinear_arith)
            requires
                tn > 0,
                d > 0,
        ;
        assert(n as int == int_abs(curve.eq_num(*point)));
    }
    if n * td > tn * d {
        proof {
            if n == 0 {
                assert(n * td == 0) by (nonlinear_arith)
                    requires
                        n == 0,
                ;
                assert(false);
            }
        }
        255
    } else {
        proof {
            lemma_mul_le(n as int * 255, 0x1FE0_0000_0000_0000, td as int, 0x1_0000_0000);
            lemma_mul_le(d as int, 0x10_0000_0000, tn as int, 0x1_0000_0000);
            assert(d * tn > 0) by (nonlinear_arith)
                requires
                    d > 0,
                    tn > 0,
            ;
            assert(n * 255 * td == (n * td) * 255) by (nonlinear_arith);
            assert((n * td) * 255 <= (tn * d) * 255) by (nonlinear_arith)
                requires
                    n * td <= tn * d,
            ;
            assert((tn * d) * 255 == 255 * (d * tn)) by (nonlinear_arith);
            vstd::arithmetic::div_mod::lemma_div_is_ordered(
                n as int * 255 * td as int,
                255 * (d as int * tn as int),
                d as int * tn as int,
            );
            vstd::arithmetic::div_mod::lemma_div_multiples_vanish(255, d as int * tn as int);
            assert((d as int * tn as int) * 255 == 255 * (d as int * tn as int))
                by (nonlinear_arith);
            assert(n * 255 * td >= 0) by (nonlinear_arith)
                requires
                    n >= 0,
                    td > 0,
            ;
            vstd::arithmetic::div_mod::lemma_div_pos_is_pos(
                n as int * 255 * td as int,
                d as int * tn as int,
            );
            if n == 0 {
                assert(n * 255 * td == 0) by (nonlinear_arith)
                    requires
                        n == 0,
                ;
                vstd::arithmetic::div_mod::lemma_div_of0(d as int * tn as int);
            }
        }
        ((n * 255 * td) / (d * tn)) as u8
    }
}

/// Largest `x` coordinate of the walk box.
pub open spec fn box_x_max(start: Point, stop: Point) -> int {
    if start.x <= stop.x {
        stop.x as int
    } else {
        start.x as int
    }
}

/// Largest `y` coordinate of the walk box.
pub open spec fn box_y_max(start: Point, stop: Point) -> int {
    if start.y <= stop.y {
        stop.y as int
    } else {
        start.y as int
    }
}

/// `(a, b)` is one of the pixels visited by the walk over `c`.
pub open spec fn on_walk<C: Curve>(c: &C, a: int, b: int) -> bool {
    let w = spec_walk(c, c.spec_start());
    exists|i: int| 0 <= i < w.len() && w[i].x == a && w[i].y == b
}

/// `(a, b)` is among the first `k` pixels of the walk sequence `w`.
pub open spec fn on_walk_prefix(w: Seq<Point>, k: int, a: int, b: int) -> bool {
    exists|i: int| 0 <= i < k && i < w.len() && w[i].x == a && w[i].y == b
}

/// One unfolding of the walk: from a non-stop point the path is the point
/// followed by the walk from the chosen step.
proof fn lemma_walk_unfold<C: Curve>(c: &C, cur: Point)
    requires
        c.inv(),
        in_walk_box(c.spec_start(), c.spec_stop(), cur),
    ensures
        spec_walk(c, cur).len() >= 1,
        spec_walk(c, cur)[0] == cur,
        cur != c.spec_stop() ==> spec_walk(c, cur) == seq![cur] + spec_walk(
            c,
            spec_step(c, cur),
        ),
        cur == c.spec_stop() ==> spec_walk(c, cur) == seq![cur],
{
    if cur != c.spec_stop() {
        lemma_step_props(c, cur);
        assert(spec_walk(c, cur) == seq![cur] + spec_walk(c, spec_step(c, cur)));
    }
}

proof fn lemma_walk_path<C: Curve>(c: &C, cur: Point)
    requires
        c.inv(),
        in_walk_box(c.spec_start(), c.spec_stop(), cur),
    ensures
        spec_walk(c, cur).len() >= 1,
        spec_walk(c, cur)[0] == cur,
        spec_walk(c, cur).last() == c.spec_stop(),
        forall|i: int|
            0 <= i < spec_walk(c, cur).len() ==> in_walk_box(
                c.spec_start(),
                c.spec_stop(),
                #[trigger] spec_walk(c, cur)[i],
            ),
        forall|i: int|
            0 <= i < spec_walk(c, cur).len() - 1 ==> walk_step_ok(
                c.spec_stop(),
                #[trigger] spec_walk(c, cur)[i],
                spec_walk(c, cur)[i + 1],
            ),
        spec_walk(c, cur).len() - 1 <= l1_to_stop(c.spec_stop(), cur),
        spec_walk(c, cur).len() - 1 >= linf_to_stop(c.spec_stop(), cur),
    decreases l1_to_stop(c.spec_stop(), cur),
{
    let stop = c.spec_stop();
    let w = spec_walk(c, cur);
    lemma_walk_unfold(c, cur);
    if cur == stop {
        assert(w == seq![cur]);
    } else {
        lemma_step_props(c, cur);
        let nxt = spec_step(c, cur);
        lemma_walk_path(c, nxt);
        let w2 = spec_walk(c, nxt);
        assert(w == seq![cur] + w2);
        assert(w.len() == 1 + w2.len());
        assert(forall|i: int| 0 <= i < w2.len() ==> w[i + 1] == #[trigger] w2[i]);
        assert(w.last() == w2.last());
        assert forall|i: int| 0 <= i < w.len() - 1 implies walk_step_ok(
            stop,
            #[trigger] w[i],
            w[i + 1],
        ) by {
            if i == 0 {
                assert(w[0] == cur && w[1] == w2[0] && w2[0] == nxt);
            } else {
                assert(w[i] == w2[i - 1] && w[i + 1] == w2[i]);
                assert(walk_step_ok(stop, w2[i - 1], w2[i]));
            }
        }
        assert(linf_to_stop(stop, cur) <= 1 + linf_to_stop(stop, nxt));
    }
}

/// The rasterizer's path over a curve whose direction matches its octant
/// for the whole traversal is a connected 8-path from start to stop: it
/// never backtracks on either axis, each step moves by at most one pixel
/// per axis, and its step count lies between the Chebyshev and the taxicab
/// distance of the endpoints.
pub proof fn lemma_walk_properties<C: Curve>(c: &C)
    requires
        c.inv(),
        c.spec_start() != c.spec_stop(),
    ensures
        spec_walk(c, c.spec_start()).len() >= 2,
        spec_walk(c, c.spec_start())[0] == c.spec_start(),
        spec_walk(c, c.spec_start()).last() == c.spec_stop(),
        forall|i: int|
            0 <= i < spec_walk(c, c.spec_start()).len() ==> in_walk_box(
                c.spec_start(),
                c.spec_stop(),
                #[trigger] spec_walk(c, c.spec_start())[i],
            ),
        forall|i: int|
            0 <= i < spec_walk(c, c.spec_start()).len() - 1 ==> walk_step_ok(
                c.spec_stop(),
                #[trigger] spec_walk(c, c.spec_start())[i],
                spec_walk(c, c.spec_start())[i + 1],
            ),
        spec_walk(c, c.spec_start()).len() - 1 <= l1_to_stop(c.spec_stop(), c.spec_start()),
        spec_walk(c, c.spec_start()).len() - 1 >= linf_to_stop(c.spec_stop(), c.spec_start()),
{
    lemma_walk_path(c, c.spec_start());
    lemma_walk_unfold(c, c.spec_start());
    lemma_step_props(c, c.spec_start());
    lemma_walk_unfold(c, spec_step(c, c.spec_start()));
}

/// The clamped candidate points reachable from `current`, in the fixed
/// enumeration order.
fn step_candidates<C: Curve>(
    curve: &C,
    start: Point,
    stop: Point,
    slope: Slope,
    current: Point,
) -> (cands: Vec<Point>)
    requires
        curve.inv(),
        start == curve.spec_start(),
        stop == curve.spec_stop(),
        slope == slope_between(start, stop),
        in_walk_box(start, stop, current),
        current != stop,
    ensures
        cands@ == spec_step_candidates(start, stop, current),
        cands@.len() >= 1,
        forall|j: int|
            0 <= j < cands@.len() ==> in_walk_box(start, stop, #[trigger] cands@[j]),
{
    proof {
        lemma_step_props(curve, current);
    }
    let mut cands: Vec<Point> = Vec::new();
    match slope {
        Slope::NorthEast => {
            if current.x == stop.x {
                cands.push(Point::new(current.x, current.y + 1));
            } else if current.y == stop.y {
                cands.push(Point::new(current.x + 1, current.y));
            } else {
                cands.push(Point::new(current.x, current.y + 1));
                cands.push(Point::new(current.x + 1, current.y + 1));
                cands.push(Point::new(current.x + 1, current.y));
            }
        },
        Slope::SouthEast => {
            if current.y == stop.y {
                cands.push(Point::new(current.x + 1, current.y));
            } else if current.x == stop.x {
                cands.push(Point::new(current.x, current.y - 1));
            } else {
                cands.push(Point::new(current.x + 1, current.y));
                cands.push(Point::new(current.x + 1, current.y - 1));
                cands.push(Point::new(current.x, current.y - 1));
            }
        },
        Slope::SouthWest => {
            if current.x == stop.x {
                cands.push(Point::new(current.x, current.y - 1));
            } else if current.y == stop.y {
                cands.push(Point::new(current.x - 1, current.y));
            } else {
                cands.push(Point::new(current.x, current.y - 1));
                cands.push(Point::new(current.x - 1, current.y - 1));
                cands.push(Point::new(current.x - 1, current.y));
            }
        },
        Slope::NorthWest => {
            if current.y == stop.y {
                cands.push(Point::new(current.x - 1, current.y));
            } else if current.x == stop.x {
                cands.push(Point::new(current.x, current.y + 1));
            } else {
                cands.push(Point::new(current.x - 1, current.y));
                cands.push(Point::new(current.x - 1, current.y + 1));
                cands.push(Point::new(current.x, current.y + 1));
            }
        },
    }
    proof {
        assert(cands@ =~= spec_step_candidates(start, stop, current));
    }
    cands
}

/// Advancing one step: if the walk sequence from the curve's start has
/// its tail at `cur`, the chosen step is the next element of the sequence
/// and carries the tail property forward.
proof fn lemma_walk_advance<C: Curve>(c: &C, w: Seq<Point>, k: int, cur: Point, nxt: Point)
    requires
        c.inv(),
        in_walk_box(c.spec_start(), c.spec_stop(), cur),
        cur != c.spec_stop(),
        w == spec_walk(c, c.spec_start()),
        0 <= k < w.len(),
        w[k] == cur,
        w.subrange(k, w.len() as int) == spec_walk(c, cur),
        nxt == spec_step(c, cur),
    ensures
        k + 1 < w.len(),
        w[k + 1] == nxt,
        w.subrange(k + 1, w.len() as int) == spec_walk(c, nxt),
        in_walk_box(c.spec_start(), c.spec_stop(), nxt),
{
    lemma_walk_unfold(c, cur);
    lemma_step_props(c, cur);
    let tail = spec_walk(c, nxt);
    assert(w.subrange(k, w.len() as int) == seq![cur] + tail);
    assert(w.len() - k == 1 + tail.len());
    assert forall|j: int| 0 <= j < tail.len() implies w.subrange(k + 1, w.len() as int)[j]
        == tail[j] by {
        assert(w.subrange(k + 1, w.len() as int)[j] == w[k + 1 + j]);
        assert(w.subrange(k, w.len() as int)[j + 1] == w[k + 1 + j]);
        assert((seq![cur] + tail)[j + 1] == tail[j]);
    }
    assert(w.subrange(k + 1, w.len() as int) =~= tail);
    lemma_walk_unfold(c, nxt);
    assert(w[k + 1] == nxt) by {
        assert(w.subrange(k + 1, w.len() as int)[0] == nxt);
    }
}

/// Select, among the clamped candidates from `current`, the first one whose
/// equation magnitude is smallest.
fn next_step<C: Curve>(curve: &C, start: Point, stop: Point, slope: Slope, current: Point) -> (r:
    Point)
    requires
        curve.inv(),
        start == curve.spec_start(),
        stop == curve.spec_stop(),
        slope == slope_between(start, stop),
        in_walk_box(start, stop, current),
        current != stop,
    ensures
        r == spec_step(curve, current),
        in_walk_box(start, stop, r),
        l1_to_stop(stop, r) < l1_to_stop(stop, current),
{
    let cands = step_candidates(curve, start, stop, slope, current);
    let mut best: Point = cands[0];
    let mut best_val: Ratio = curve.equation(&best);
    let mut i: usize = 1;
    while i < cands.len()
        invariant
            curve.inv(),
            start == curve.spec_start(),
            stop == curve.spec_stop(),
            in_walk_box(start, stop, current),
            current != stop,
            cands@ == spec_step_candidates(start, stop, current),
            1 <= i <= cands.len(),
            best == spec_choose(curve, cands@.take(i as int)),
            in_walk_box(start, stop, best),
            best_val.num as int == curve.eq_num(best),
            best_val.den as int == curve.eq_den(best),
        decreases cands.len() - i,
    {
        proof {
            lemma_step_props(curve, current);
        }
        let cand = cands[i];
        let val = curve.equation(&cand);
        proof {
            curve.lemma_eq_den_pos(cand);
            curve.lemma_eq_den_pos(best);
            assert(cands@.take(i + 1).take(i as int) =~= cands@.take(i as int));
            assert(cands@.take(i + 1).last() == cand);
        }
        if abs_less(&val, &best_val) {
            best = cand;
            best_val = val;
        }
        i += 1;
    }
    proof {
        assert(cands@.take(cands@.len() as int) =~= cands@);
        lemma_step_props(curve, current);
        lemma_choose_contains(curve, cands@);
    }
    best
}

/// Walk the curve from start to stop and paint every visited pixel with the
/// darkest intensity.
pub fn draw<C: Curve, D: XYDrawable>(curve: &C, canvas: &mut D)
    requires
        curve.inv(),
        curve.spec_start() != curve.spec_stop(),
        box_x_max(curve.spec_start(), curve.spec_stop()) < old(canvas).x_limit(),
        box_y_max(curve.spec_start(), curve.spec_stop()) < old(canvas).y_limit(),
    ensures
        final(canvas).x_limit() == old(canvas).x_limit(),
        final(canvas).y_limit() == old(canvas).y_limit(),
        final(canvas).geometry() == old(canvas).geometry(),
        forall|a: int, b: int|
            on_walk(curve, a, b) ==> #[trigger] final(canvas).pix_at(a, b) == 0,
        forall|a: int, b: int|
            !on_walk(curve, a, b) ==> #[trigger] final(canvas).pix_at(a, b) == old(
                canvas,
            ).pix_at(a, b),
{
    let start = curve.start();
    let stop = curve.stop();
    let slope = Slope::between(&start, &stop);
    let mut current = start;
    let ghost w = spec_walk(curve, curve.spec_start());
    let ghost mut k: int = 0;
    proof {
        lemma_walk_unfold(curve, start);
    }
    loop
        invariant_except_break
            curve.inv(),
            start == curve.spec_start(),
            stop == curve.spec_stop(),
            start != stop,
            slope == slope_between(start, stop),
            in_walk_box(start, stop, current),
            w == spec_walk(curve, curve.spec_start()),
            0 <= k < w.len(),
            w[k] == current,
            w.subrange(k, w.len() as int) == spec_walk(curve, current),
            canvas.x_limit() == old(canvas).x_limit(),
            canvas.y_limit() == old(canvas).y_limit(),
            canvas.geometry() == old(canvas).geometry(),
            box_x_max(start, stop) < canvas.x_limit(),
            box_y_max(start, stop) < canvas.y_limit(),
            forall|a: int, b: int|
                on_walk_prefix(w, k, a, b) ==> #[trigger] canvas.pix_at(a, b) == 0,
            forall|a: int, b: int|
                !on_walk_prefix(w, k, a, b) ==> #[trigger] canvas.pix_at(a, b) == old(
                    canvas,
                ).pix_at(a, b),
        ensures
            canvas.x_limit() == old(canvas).x_limit(),
            canvas.y_limit() == old(canvas).y_limit(),
            canvas.geometry() == old(canvas).geometry(),
            forall|a: int, b: int|
                on_walk_prefix(w, w.len() as int, a, b) ==> #[trigger] canvas.pix_at(a, b) == 0,
            forall|a: int, b: int|
                !on_walk_prefix(w, w.len() as int, a, b) ==> #[trigger] canvas.pix_at(a, b)
                    == old(canvas).pix_at(a, b),
        decreases l1_to_stop(stop, current),
    {
        canvas.set_xy(current.x, current.y, 0);
        proof {
            assert(forall|a: int, b: int|
                on_walk_prefix(w, k + 1, a, b) ==> on_walk_prefix(w, k, a, b) || (a == current.x
                    as int && b == current.y as int));
        }
        if current.x == stop.x && current.y == stop.y {
            proof {
                lemma_walk_unfold(curve, current);
                assert(w.subrange(k, w.len() as int).len() == 1);
                assert(k == w.len() - 1);
            }
            break;
        }
        let next = next_step(curve, start, stop, slope, current);
        proof {
            lemma_walk_advance(curve, w, k, current, next);
        }
        current = next;
        proof {
            k = k + 1;
        }
    }
}

/// `(a, b)` is covered by the horizontal expansion of one of the first `k`
/// walk pixels.
pub open spec fn on_thick_prefix(
    w: Seq<Point>,
    k: int,
    extent: int,
    x_limit: int,
    a: int,
    b: int,
) -> bool {
    exists|i: int| 0 <= i < k && i < w.len() && hline_covers(w[i], extent, x_limit, a, b)
}

/// `(a, b)` is covered by the thick stroke over `c`: a horizontal run of
/// half-width `extent` centred on some walk pixel, clamped to `x_limit`.
pub open spec fn on_thick_walk<C: Curve>(c: &C, extent: int, x_limit: int, a: int, b: int) -> bool {
    let w = spec_walk(c, c.spec_start());
    exists|i: int| 0 <= i < w.len() && hline_covers(w[i], extent, x_limit, a, b)
}

/// Walk the curve and paint, at every visited pixel, a horizontal run of
/// `2 * thickness + 1` darkest pixels clamped to the drawable region.
pub fn draw_thick<C: Curve, D: XYDrawable>(curve: &C, canvas: &mut D, thickness: u32)
    requires
        curve.inv(),
        curve.spec_start() != curve.spec_stop(),
        box_x_max(curve.spec_start(), curve.spec_stop()) < old(canvas).x_limit(),
        box_y_max(curve.spec_start(), curve.spec_stop()) < old(canvas).y_limit(),
    ensures
        final(canvas).x_limit() == old(canvas).x_limit(),
        final(canvas).y_limit() == old(canvas).y_limit(),
        final(canvas).geometry() == old(canvas).geometry(),
        forall|a: int, b: int|
            on_thick_walk(curve, thickness as int, old(canvas).x_limit(), a, b)
                ==> #[trigger] final(canvas).pix_at(a, b) == 0,
        forall|a: int, b: int|
            !on_thick_walk(curve, thickness as int, old(canvas).x_limit(), a, b)
                ==> #[trigger] final(canvas).pix_at(a, b) == old(canvas).pix_at(a, b),
{
    let start = curve.start();
    let stop = curve.stop();
    let slope = Slope::between(&start, &stop);
    let mut current = start;
    let ghost w = spec_walk(curve, curve.spec_start());
    let ghost mut k: int = 0;
    proof {
        lemma_walk_unfold(curve, start);
    }
    loop
        invariant_except_break
            curve.inv(),
            start == curve.spec_start(),
            stop == curve.spec_stop(),
            start != stop,
            slope == slope_between(start, stop),
            in_walk_box(start, stop, current),
            w == spec_walk(curve, curve.spec_start()),
            0 <= k < w.len(),
            w[k] == current,
            w.subrange(k, w.len() as int) == spec_walk(curve, current),
            canvas.x_limit() == old(canvas).x_limit(),
            canvas.y_limit() == old(canvas).y_limit(),
            canvas.geometry() == old(canvas).geometry(),
            box_x_max(start, stop) < canvas.x_limit(),
            box_y_max(start, stop) < canvas.y_limit(),
            forall|a: int, b: int|
                on_thick_prefix(w, k, thickness as int, old(canvas).x_limit(), a, b)
                    ==> #[trigger] canvas.pix_at(a, b) == 0,
            forall|a: int, b: int|
                !on_thick_prefix(w, k, thickness as int, old(canvas).x_limit(), a, b)
                    ==> #[trigger] canvas.pix_at(a, b) == old(canvas).pix_at(a, b),
        ensures
            canvas.x_limit() == old(canvas).x_limit(),
            canvas.y_limit() == old(canvas).y_limit(),
            canvas.geometry() == old(canvas).geometry(),
            forall|a: int, b: int|
                on_thick_prefix(w, w.len() as int, thickness as int, old(canvas).x_limit(), a, b)
                    ==> #[trigger] canvas.pix_at(a, b) == 0,
            forall|a: int, b: int|
                !on_thick_prefix(w, w.len() as int, thickness as int, old(canvas).x_limit(), a, b)
                    ==> #[trigger] canvas.pix_at(a, b) == old(canvas).pix_at(a, b),
        decreases l1_to_stop(stop, current),
    {
        canvas.set_horizontal_line(&current, 0, thickness);
        proof {
            assert(forall|a: int, b: int|
                on_thick_prefix(w, k + 1, thickness as int, old(canvas).x_limit(), a, b)
                    ==> on_thick_prefix(w, k, thickness as int, old(canvas).x_limit(), a, b)
                    || hline_covers(current, thickness as int, old(canvas).x_limit(), a, b));
        }
        if current.x == stop.x && current.y == stop.y {
            proof {
                lemma_walk_unfold(curve, current);
                assert(w.subrange(k, w.len() as int).len() == 1);
                assert(k == w.len() - 1);
            }
            break;
        }
        let next = next_step(curve, start, stop, slope, current);
        proof {
            lemma_walk_advance(curve, w, k, current, next);
        }
        current = next;
        proof {
            k = k + 1;
        }
    }
}

/// `(a, b)` is the start point or one of the three raw candidates of one
/// of the first `k` walk pixels.
pub open spec fn on_aa_prefix<C: Curve>(c: &C, w: Seq<Point>, k: int, a: int, b: int) -> bool {
    (a == c.spec_start().x as int && b == c.spec_start().y as int) || exists|i: int, j: int|
        0 <= i < k && i < w.len() - 1 && 0 <= j < 3 && slope_between(
            c.spec_start(),
            c.spec_stop(),
        ).spec_next(w[i])[j].x == a && slope_between(c.spec_start(), c.spec_stop()).spec_next(
            w[i],
        )[j].y == b
}

/// `(a, b)` receives paint during the anti-aliased draw of `c`: the start
/// point, or one of the three candidates evaluated at some step of the
/// walk.
pub open spec fn on_aa_walk<C: Curve>(c: &C, a: int, b: int) -> bool {
    on_aa_prefix(c, spec_walk(c, c.spec_start()), spec_walk(c, c.spec_start()).len() - 1, a, b)
}

/// Room that the anti-aliased draw needs around the walk box: the raw
/// candidates reach one pixel beyond the stop along the direction of
/// travel, and those pixels must be settable and representable.
pub open spec fn aa_room(start: Point, stop: Point, x_limit: int, y_limit: int) -> bool {
    match slope_between(start, stop) {
        Slope::NorthEast => {
            &&& box_x_max(start, stop) + 1 < x_limit
            &&& box_y_max(start, stop) + 1 < y_limit
            &&& box_x_max(start, stop) + 1 <= u32::MAX
            &&& box_y_max(start, stop) + 1 <= u32::MAX
        },
        Slope::SouthEast => {
            &&& box_x_max(start, stop) + 1 < x_limit
            &&& box_x_max(start, stop) + 1 <= u32::MAX
            &&& box_y_max(start, stop) < y_limit
            &&& box_y_min(start, stop) >= 1
        },
        Slope::SouthWest => {
            &&& box_x_max(start, stop) < x_limit
            &&& box_y_max(start, stop) < y_limit
            &&& box_x_min(start, stop) >= 1
            &&& box_y_min(start, stop) >= 1
        },
        Slope::NorthWest => {
            &&& box_x_max(start, stop) < x_limit
            &&& box_x_min(start, stop) >= 1
            &&& box_y_max(start, stop) + 1 < y_limit
            &&& box_y_max(start, stop) + 1 <= u32::MAX
        },
    }
}

/// The raw candidates of an in-box point stay within one pixel of the
/// walk box, inside the settable region, with exactly representable
/// coordinates.
proof fn lemma_paint_candidates<C: Curve>(c: &C, cur: Point, x_limit: int, y_limit: int)
    requires
        c.inv(),
        in_walk_box(c.spec_start(), c.spec_stop(), cur),
        aa_room(c.spec_start(), c.spec_stop(), x_limit, y_limit),
    ensures
        forall|j: int|
            0 <= j < 3 ==> {
                let p = #[trigger] slope_between(c.spec_start(), c.spec_stop()).spec_next(cur)[j];
                near_walk_box(c.spec_start(), c.spec_stop(), p) && (p.x as int) < x_limit && (
                p.y as int) < y_limit
            },
        match slope_between(c.spec_start(), c.spec_stop()) {
            Slope::NorthEast => cur.x < u32::MAX && cur.y < u32::MAX,
            Slope::SouthEast => cur.x < u32::MAX && cur.y > 0,
            Slope::SouthWest => cur.x > 0 && cur.y > 0,
            Slope::NorthWest => cur.x > 0 && cur.y < u32::MAX,
        },
{
    let ps = slope_between(c.spec_start(), c.spec_stop()).spec_next(cur);
    assert(ps.len() == 3);
    assert(near_walk_box(c.spec_start(), c.spec_stop(), ps[0]) && (ps[0].x as int) < x_limit && (
    ps[0].y as int) < y_limit);
    assert(near_walk_box(c.spec_start(), c.spec_stop(), ps[1]) && (ps[1].x as int) < x_limit && (
    ps[1].y as int) < y_limit);
    assert(near_walk_box(c.spec_start(), c.spec_stop(), ps[2]) && (ps[2].x as int) < x_limit && (
    ps[2].y as int) < y_limit);
}

/// Walk the curve, painting the current pixel and its three candidate
/// neighbours with an intensity proportional to their distance from the
/// true curve; the walk itself still steps only among the clamped
/// candidates.
pub fn draw_antialiased<C: Curve, D: XYDrawable>(curve: &C, canvas: &mut D)
    requires
        curve.inv(),
        curve.spec_start() != curve.spec_stop(),
        aa_room(
            curve.spec_start(),
            curve.spec_stop(),
            old(canvas).x_limit(),
            old(canvas).y_limit(),
        ),
    ensures
        final(canvas).x_limit() == old(canvas).x_limit(),
        final(canvas).y_limit() == old(canvas).y_limit(),
        final(canvas).geometry() == old(canvas).geometry(),
        forall|a: int, b: int|
            on_aa_walk(curve, a, b) ==> #[trigger] final(canvas).pix_at(a, b) == spec_aa_value(
                curve,
                Point { x: a as u32, y: b as u32 },
            ),
        forall|a: int, b: int|
            !on_aa_walk(curve, a, b) ==> #[trigger] final(canvas).pix_at(a, b) == old(
                canvas,
            ).pix_at(a, b),
{
    let start = curve.start();
    let stop = curve.stop();
    let slope = Slope::between(&start, &stop);
    let v0 = antialiased_value(curve, &start);
    canvas.set_xy(start.x, start.y, v0);
    let mut current = start;
    let ghost w = spec_walk(curve, curve.spec_start());
    let ghost mut k: int = 0;
    proof {
        lemma_walk_unfold(curve, start);
    }
    loop
        invariant_except_break
            curve.inv(),
            start == curve.spec_start(),
            stop == curve.spec_stop(),
            start != stop,
            slope == slope_between(start, stop),
            in_walk_box(start, stop, current),
            w == spec_walk(curve, curve.spec_start()),
            0 <= k < w.len(),
            w[k] == current,
            w.subrange(k, w.len() as int) == spec_walk(curve, current),
            canvas.x_limit() == old(canvas).x_limit(),
            canvas.y_limit() == old(canvas).y_limit(),
            canvas.geometry() == old(canvas).geometry(),
            aa_room(start, stop, old(canvas).x_limit(), old(canvas).y_limit()),
            forall|a: int, b: int|
                on_aa_prefix(curve, w, k, a, b) ==> #[trigger] canvas.pix_at(a, b)
                    == spec_aa_value(curve, Point { x: a as u32, y: b as u32 }),
            forall|a: int, b: int|
                !on_aa_prefix(curve, w, k, a, b) ==> #[trigger] canvas.pix_at(a, b) == old(
                    canvas,
                ).pix_at(a, b),
        ensures
            canvas.x_limit() == old(canvas).x_limit(),
            canvas.y_limit() == old(canvas).y_limit(),
            canvas.geometry() == old(canvas).geometry(),
            forall|a: int, b: int|
                on_aa_prefix(curve, w, w.len() - 1, a, b) ==> #[trigger] canvas.pix_at(a, b)
                    == spec_aa_value(curve, Point { x: a as u32, y: b as u32 }),
            forall|a: int, b: int|
                !on_aa_prefix(curve, w, w.len() - 1, a, b) ==> #[trigger] canvas.pix_at(a, b)
                    == old(canvas).pix_at(a, b),
        decreases l1_to_stop(stop, current),
    {
        if current.x == stop.x && current.y == stop.y {
            proof {
                lemma_walk_unfold(curve, current);
                assert(w.subrange(k, w.len() as int).len() == 1);
                assert(k == w.len() - 1);
            }
            break;
        }
        proof {
            lemma_walk_unfold(curve, current);
            lemma_step_props(curve, current);
            lemma_walk_unfold(curve, spec_step(curve, current));
            assert(spec_walk(curve, current).len() >= 2);
            assert(w.subrange(k, w.len() as int).len() == w.len() - k);
            assert(k < w.len() - 1);
            lemma_paint_candidates(curve, current, old(canvas).x_limit(), old(canvas).y_limit());
        }
        let paint = slope.next(&current);
        let mut j: usize = 0;
        while j < 3
            invariant
                curve.inv(),
                start == curve.spec_start(),
                stop == curve.spec_stop(),
                start != stop,
                in_walk_box(start, stop, current),
                current != stop,
                w == spec_walk(curve, curve.spec_start()),
                0 <= k < w.len() - 1,
                w[k] == current,
                paint@ == slope_between(start, stop).spec_next(current),
                forall|jj: int|
                    0 <= jj < 3 ==> {
                        let p = #[trigger] paint@[jj];
                        near_walk_box(start, stop, p) && (p.x as int) < canvas.x_limit() && (
                        p.y as int) < canvas.y_limit()
                    },
                0 <= j <= 3,
                canvas.x_limit() == old(canvas).x_limit(),
                canvas.y_limit() == old(canvas).y_limit(),
                canvas.geometry() == old(canvas).geometry(),
                forall|a: int, b: int|
                    on_aa_prefix(curve, w, k, a, b) || (exists|jj: int|
                        0 <= jj < j && paint@[jj].x == a && paint@[jj].y == b)
                        ==> #[trigger] canvas.pix_at(a, b) == spec_aa_value(
                        curve,
                        Point { x: a as u32, y: b as u32 },
                    ),
                forall|a: int, b: int|
                    !(on_aa_prefix(curve, w, k, a, b) || (exists|jj: int|
                        0 <= jj < j && paint@[jj].x == a && paint@[jj].y == b))
                        ==> #[trigger] canvas.pix_at(a, b) == old(canvas).pix_at(a, b),
            decreases 3 - j,
        {
            let p = paint[j];
            let v = antialiased_value(curve, &p);
            canvas.set_xy(p.x, p.y, v);
            j += 1;
        }
        proof {
            assert(forall|a: int, b: int|
                #[trigger] on_aa_prefix(curve, w, k + 1, a, b) ==> on_aa_prefix(curve, w, k, a, b)
                    || (exists|jj: int|
                    0 <= jj < 3 && paint@[jj].x == a && paint@[jj].y == b));
            assert(forall|a: int, b: int|
                (exists|jj: int| 0 <= jj < 3 && paint@[jj].x == a && paint@[jj].y == b)
                    ==> #[trigger] on_aa_prefix(curve, w, k + 1, a, b));
            assert(forall|a: int, b: int|
                on_aa_prefix(curve, w, k, a, b) ==> #[trigger] on_aa_prefix(
                    curve,
                    w,
                    k + 1,
                    a,
                    b,
                ));
        }
        let next = next_step(curve, start, stop, slope, current);
        proof {
            lemma_walk_advance(curve, w, k, current, next);
        }
        current = next;
        proof {
            k = k + 1;
        }
    }
}


} // verus!
