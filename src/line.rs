//! Straight lines, exact or antialiased.
use vstd::prelude::*;

use crate::{lemma_plot_all_outside, lemma_plot_all_step, plot, plot_all, Canvas, Drawable, Frame};

verus! {

/// A drawable object that represents a line
#[derive(Clone, Copy)]
pub struct Line {
    /// The first point of the line
    pub pt1: (usize, usize),
    /// The second point of the line
    pub pt2: (usize, usize),
    /// The color of the line, alpha first
    pub color: [u8; 4],
    /// Whether a slanted line is antialiased
    pub antialiased: bool,
}

/// Distance between two coordinates.
pub open spec fn span(a: int, b: int) -> int {
    if a <= b { b - a } else { a - b }
}

/// Every point from `(x, min(y1, y2))` down to `(x, max(y1, y2))`.
pub open spec fn vertical_run(x: int, y1: int, y2: int, alpha: u8) -> Seq<(int, int, u8)> {
    let lo = if y1 <= y2 { y1 } else { y2 };
    Seq::new((span(y1, y2) + 1) as nat, |i: int| (x, lo + i, alpha))
}

/// Every point from `(min(x1, x2), y)` across to `(max(x1, x2), y)`.
pub open spec fn horizontal_run(x1: int, x2: int, y: int, alpha: u8) -> Seq<(int, int, u8)> {
    let lo = if x1 <= x2 { x1 } else { x2 };
    Seq::new((span(x1, x2) + 1) as nat, |i: int| (lo + i, y, alpha))
}

/// The point `major` along the dominant axis and `minor` across it, as `(x, y)`.
pub open spec fn oriented(steep: bool, major: int, minor: int) -> (int, int) {
    if steep { (minor, major) } else { (major, minor) }
}

/// The endpoints in the line's own axes: whether y is the dominant axis (the line is
/// steeper than 45 degrees), then the endpoint with the smaller dominant coordinate and the
/// other one, each as (dominant, cross) coordinates.
pub open spec fn axes(a: (int, int), b: (int, int)) -> (bool, int, int, int, int) {
    let steep = span(a.1, b.1) > span(a.0, b.0);
    let (ma, na, mb, nb) = if steep { (a.1, a.0, b.1, b.0) } else { (a.0, a.1, b.0, b.1) };
    if ma <= mb { (steep, ma, na, mb, nb) } else { (steep, mb, nb, ma, na) }
}

/// How far across the dominant axis the ideal line has moved after `i` of `run` steps
/// along it, rounded to the nearest pixel (a half rounds away from the start).
pub open spec fn nearest_offset(i: int, run: int, rise: int) -> int {
    (2 * i * rise + run) / (2 * run)
}

/// Point `i` of `bresenham_points`, for endpoints given in the line's own axes `ax`.
pub open spec fn bresenham_point(ax: (bool, int, int, int, int), i: int, alpha: u8) -> (int, int, u8) {
    let (steep, m0, n0, m1, n1) = ax;
    let off = nearest_offset(i, m1 - m0, span(n0, n1));
    let p = oriented(steep, m0 + i, if n0 <= n1 { n0 + off } else { n0 - off });
    (p.0, p.1, alpha)
}

/// One point per step along the dominant axis, from one end to the other, each the pixel
/// nearest the ideal line.
pub open spec fn bresenham_points(a: (int, int), b: (int, int), alpha: u8) -> Seq<(int, int, u8)> {
    let ax = axes(a, b);
    Seq::new((ax.3 - ax.1 + 1) as nat, |i: int| bresenham_point(ax, i, alpha))
}

/// Where the ideal line crosses step `k` along the dominant axis, in units of `1 / run`
/// pixels across it.
pub open spec fn wu_position(a: (int, int), b: (int, int), k: int) -> int {
    let (steep, m0, n0, m1, n1) = axes(a, b);
    n0 * (m1 - m0) + k * (n1 - n0)
}

/// The coverage, in units of `1 / run`, of point `j` of `wu_points`: the endpoints are fully
/// covered; at each inner step the pixel on the near side of the ideal line gets the part
/// the line misses of the far one, and the far pixel the rest.
pub open spec fn wu_coverage(a: (int, int), b: (int, int), j: int) -> int {
    let (steep, m0, n0, m1, n1) = axes(a, b);
    let run = m1 - m0;
    let r = wu_position(a, b, j / 2) % run;
    if j < 2 {
        run
    } else if j % 2 == 0 {
        run - r
    } else {
        r
    }
}

/// `alpha` scaled by a coverage of `cov / run`, rounded down.
pub open spec fn coverage_alpha(alpha: u8, cov: int, run: int) -> u8 {
    (alpha as int * cov / run) as u8
}

/// The antialiased points: both endpoints, then for each inner step along the dominant axis
/// the two pixels that straddle the ideal line, each with its share of the coverage.
pub open spec fn wu_points(a: (int, int), b: (int, int), alpha: u8) -> Seq<(int, int, u8)> {
    let (steep, m0, n0, m1, n1) = axes(a, b);
    let run = m1 - m0;
    Seq::new(
        (2 * run) as nat,
        |j: int|
            {
                let k = j / 2;
                let f = wu_position(a, b, k) / run;
                let p = if j == 0 {
                    oriented(steep, m0, n0)
                } else if j == 1 {
                    oriented(steep, m1, n1)
                } else if j % 2 == 0 {
                    oriented(steep, m0 + k, f)
                } else {
                    oriented(steep, m0 + k, f + 1)
                };
                (p.0, p.1, coverage_alpha(alpha, wu_coverage(a, b, j), run))
            },
    )
}

/// At every inner step of an antialiased slanted line the two pixels that straddle the
/// ideal line are neighbours across it, and their coverages, each between none and full,
/// add up to exactly full coverage.
pub proof fn lemma_wu_coverage_sums_to_full(a: (int, int), b: (int, int), k: int)
    requires
        a.0 != b.0,
        a.1 != b.1,
        1 <= k < axes(a, b).3 - axes(a, b).1,
    ensures ({
        let run = axes(a, b).3 - axes(a, b).1;
        let pts = wu_points(a, b, 255);
        &&& 0 <= wu_coverage(a, b, 2 * k) <= run
        &&& 0 <= wu_coverage(a, b, 2 * k + 1) <= run
        &&& wu_coverage(a, b, 2 * k) + wu_coverage(a, b, 2 * k + 1) == run
        &&& oriented(axes(a, b).0, pts[2 * k].0, pts[2 * k].1) == (
            oriented(axes(a, b).0, pts[2 * k + 1].0, pts[2 * k + 1].1).0,
            oriented(axes(a, b).0, pts[2 * k + 1].0, pts[2 * k + 1].1).1 - 1,
        )
    }),
{
    let run = axes(a, b).3 - axes(a, b).1;
    assert((2 * k) / 2 == k);
    assert((2 * k + 1) / 2 == k);
    assert(run > 0);
    let pos = wu_position(a, b, k);
    assert(0 <= pos % run < run);
}

impl Line {
    /// Creates a new Line object
    pub fn new(pt1: (usize, usize), pt2: (usize, usize), color: [u8; 4], antialiased: bool) -> (r: Line)
        ensures
            r.pt1 == pt1,
            r.pt2 == pt2,
            r.color == color,
            r.antialiased == antialiased,
    {
        Line { pt1, pt2, color, antialiased }
    }

    /// The points the line plots, in order, with the opacity of each. A vertical or
    /// horizontal line is a plain run whether antialiased or not.
    pub open spec fn stroke(&self) -> Seq<(int, int, u8)> {
        let a = (self.pt1.0 as int, self.pt1.1 as int);
        let b = (self.pt2.0 as int, self.pt2.1 as int);
        if a.0 == b.0 {
            vertical_run(a.0, a.1, b.1, self.color[0])
        } else if a.1 == b.1 {
            horizontal_run(a.0, b.0, a.1, self.color[0])
        } else if !self.antialiased {
            bresenham_points(a, b, self.color[0])
        } else {
            wu_points(a, b, self.color[0])
        }
    }
}

impl Drawable for Line {
    open spec fn painted(&self, f: Frame, before: Seq<u8>) -> Seq<u8> {
        plot_all(f, before, self.stroke(), self.color)
    }

    fn draw(&self, canvas: &mut Canvas) {
        let (x1, y1) = self.pt1;
        let (x2, y2) = self.pt2;
        if x1 == x2 {
            draw_run(canvas, true, x1, y1, y2, self.color);
        } else if y1 == y2 {
            draw_run(canvas, false, y1, x1, x2, self.color);
        } else if !self.antialiased {
            draw_bresenham(canvas, self.pt1, self.pt2, self.color);
        } else {
            draw_wu(canvas, self.pt1, self.pt2, self.color);
        }
    }
}

/// Plots the run `vertical_run(at, c1, c2)` if `vertical`, else `horizontal_run(c1, c2, at)`,
/// visiting only the part that lies on the canvas.
fn draw_run(canvas: &mut Canvas, vertical: bool, at: usize, c1: usize, c2: usize, color: [u8; 4])
    requires
        old(canvas).wf(),
    ensures
        final(canvas).frame() == old(canvas).frame(),
        final(canvas).wf(),
        final(canvas).buffer@ == plot_all(
            old(canvas).frame(),
            old(canvas).buffer@,
            if vertical {
                vertical_run(at as int, c1 as int, c2 as int, color[0])
            } else {
                horizontal_run(c1 as int, c2 as int, at as int, color[0])
            },
            color,
        ),
{
    let ghost f = canvas.frame();
    let ghost before = canvas.buffer@;
    let ghost pts = if vertical {
        vertical_run(at as int, c1 as int, c2 as int, color[0])
    } else {
        horizontal_run(c1 as int, c2 as int, at as int, color[0])
    };
    let (across, along) = if vertical { (canvas.width, canvas.height) } else { (canvas.height, canvas.width) };
    let lo = if c1 <= c2 { c1 } else { c2 };
    let hi = if c1 <= c2 { c2 } else { c1 };
    if at >= across || lo >= along {
        proof {
            lemma_plot_all_outside(f, before, pts, 0, color);
            assert(pts.subrange(0, 0) =~= Seq::<(int, int, u8)>::empty());
        }
        return;
    }
    let last = if hi < along { hi } else { along - 1 };
    let mut c: usize = lo;
    while c <= last
        invariant
            lo <= c <= last + 1,
            last <= hi,
            last < along,
            at < across,
            canvas.wf(),
            canvas.frame() == f,
            f.width == (if vertical { across } else { along }),
            f.height == (if vertical { along } else { across }),
            pts.len() == hi - lo + 1,
            forall|j: int| 0 <= j < pts.len() ==> #[trigger] pts[j] == (if vertical {
                (at as int, lo + j, color[0])
            } else {
                (lo + j, at as int, color[0])
            }),
            canvas.buffer@ == plot_all(f, before, pts.subrange(0, c - lo), color),
        decreases last + 1 - c,
    {
        proof {
            lemma_plot_all_step(f, before, pts, c - lo, color);
        }
        if vertical {
            canvas.plot_point(at, c, color[0], color);
        } else {
            canvas.plot_point(c, at, color[0], color);
        }
        c = c + 1;
    }
    proof {
        lemma_plot_all_outside(f, before, pts, c - lo, color);
    }
}

/// Plots `bresenham_points` between two points that differ in both coordinates.
fn draw_bresenham(canvas: &mut Canvas, a: (usize, usize), b: (usize, usize), color: [u8; 4])
    requires
        old(canvas).wf(),
        a.0 != b.0,
        a.1 != b.1,
    ensures
        final(canvas).frame() == old(canvas).frame(),
        final(canvas).wf(),
        final(canvas).buffer@ == plot_all(
            old(canvas).frame(),
            old(canvas).buffer@,
            bresenham_points((a.0 as int, a.1 as int), (b.0 as int, b.1 as int), color[0]),
            color,
        ),
{
    let ghost f = canvas.frame();
    let ghost before = canvas.buffer@;
    let ghost pts = bresenham_points((a.0 as int, a.1 as int), (b.0 as int, b.1 as int), color[0]);
    let (steep, m0, n0, m1, n1) = order_axes(a, b);
    let run = m1 - m0;
    let rise = if n0 <= n1 { n1 - n0 } else { n0 - n1 };
    let run2 = 2 * (run as u128);
    let rise2 = 2 * (rise as u128);
    // `err` is how far the nearest pixel lies behind the ideal line, in units of 1 / (2 * run).
    let mut err: u128 = run as u128;
    let mut off: usize = 0;
    let mut i: usize = 0;
    assert(err + run2 * off == 2 * i * rise + run) by (nonlinear_arith)
        requires err == run, off == 0, i == 0;
    loop
        invariant_except_break
            i <= run,
            canvas.buffer@ == plot_all(f, before, pts.subrange(0, i as int), color),
        invariant
            canvas.wf(),
            canvas.frame() == f,
            run == m1 - m0,
            rise == if n0 <= n1 { n1 - n0 } else { n0 - n1 },
            run > 0,
            run2 == 2 * run,
            rise2 == 2 * rise,
            pts == bresenham_points((a.0 as int, a.1 as int), (b.0 as int, b.1 as int), color[0]),
            pts.len() == run + 1,
            (steep, m0 as int, n0 as int, m1 as int, n1 as int) == axes((a.0 as int, a.1 as int), (b.0 as int, b.1 as int)),
            err < run2,
            err + run2 * off == 2 * i * rise + run,
        ensures
            canvas.wf(),
            canvas.frame() == f,
            canvas.buffer@ == plot_all(f, before, pts, color),
        decreases run - i,
    {
        proof {
            assert((off as int) * (2 * run) == run2 * off) by (nonlinear_arith)
                requires run2 == 2 * run;
            vstd::arithmetic::div_mod::lemma_fundamental_div_mod_converse(
                2 * i * rise + run, 2 * run, off as int, err as int);
            assert(off as int == nearest_offset(i as int, run as int, rise as int));
            assert(off <= rise) by (nonlinear_arith)
                requires
                    err + 2 * run * off == 2 * i * rise + run,
                    i <= run,
                    err >= 0,
                    run > 0;
            lemma_plot_all_step(f, before, pts, i as int, color);
        }
        let across = if n0 <= n1 { n0 + off } else { n0 - off };
        let ghost ax = axes((a.0 as int, a.1 as int), (b.0 as int, b.1 as int));
        assert(pts[i as int] == bresenham_point(ax, i as int, color[0]));
        assert(ax.0 == steep && ax.1 == m0 && ax.2 == n0 && ax.3 == m1 && ax.4 == n1);
        assert(span(ax.2, ax.4) == rise);
        assert(nearest_offset(i as int, ax.3 - ax.1, span(ax.2, ax.4)) == off);
        assert(pts[i as int] == (
            oriented(steep, m0 + i, across as int).0,
            oriented(steep, m0 + i, across as int).1,
            color[0],
        ));
        if steep {
            canvas.plot_point(across, m0 + i, color[0], color);
        } else {
            canvas.plot_point(m0 + i, across, color[0], color);
        }
        if i == run {
            proof {
                assert(pts.subrange(0, i + 1) =~= pts);
            }
            break;
        }
        proof {
            assert(2 * (i + 1) * rise == 2 * i * rise + 2 * rise) by (nonlinear_arith);
            assert(run2 * (off + 1) == run2 * off + run2) by (nonlinear_arith);
        }
        i = i + 1;
        err = err + rise2;
        if err >= run2 {
            assert(off < rise) by (nonlinear_arith)
                requires
                    (err - run2) + run2 * (off + 1) == 2 * i * rise + run,
                    i <= run,
                    err >= run2,
                    run2 == 2 * run,
                    run > 0;
            err = err - run2;
            off = off + 1;
        }
    }
}

/// Plots `wu_points` between two points that differ in both coordinates.
fn draw_wu(canvas: &mut Canvas, a: (usize, usize), b: (usize, usize), color: [u8; 4])
    requires
        old(canvas).wf(),
        a.0 != b.0,
        a.1 != b.1,
    ensures
        final(canvas).frame() == old(canvas).frame(),
        final(canvas).wf(),
        final(canvas).buffer@ == plot_all(
            old(canvas).frame(),
            old(canvas).buffer@,
            wu_points((a.0 as int, a.1 as int), (b.0 as int, b.1 as int), color[0]),
            color,
        ),
{
    let ghost f = canvas.frame();
    let ghost before = canvas.buffer@;
    let ghost pa = (a.0 as int, a.1 as int);
    let ghost pb = (b.0 as int, b.1 as int);
    let ghost pts = wu_points(pa, pb, color[0]);
    let (steep, m0, n0, m1, n1) = order_axes(a, b);
    let run = m1 - m0;
    let up = n0 <= n1;
    let rise = if up { n1 - n0 } else { n0 - n1 };
    let run_w = run as u128;
    let rise_w = rise as u128;
    let full = scale_alpha(color[0], run_w, run_w);
    proof {
        lemma_plot_all_step(f, before, pts, 0, color);
        lemma_plot_all_step(f, before, pts, 1, color);
    }
    if steep {
        canvas.plot_point(n0, m0, full, color);
        canvas.plot_point(n1, m1, full, color);
    } else {
        canvas.plot_point(m0, n0, full, color);
        canvas.plot_point(m1, n1, full, color);
    }
    // The ideal line crosses step `k - 1` at `fl + r / run` pixels across.
    let mut fl: usize = n0;
    let mut r: u128 = 0;
    let mut k: usize = 1;
    assert(fl * run + r == wu_position(pa, pb, k - 1)) by (nonlinear_arith)
        requires fl == n0, r == 0, k == 1, wu_position(pa, pb, 0) == n0 * run;
    while k < run
        invariant
            canvas.wf(),
            canvas.frame() == f,
            pts == wu_points(pa, pb, color[0]),
            pa == (a.0 as int, a.1 as int),
            pb == (b.0 as int, b.1 as int),
            (steep, m0 as int, n0 as int, m1 as int, n1 as int) == axes(pa, pb),
            run == m1 - m0,
            run > 0,
            run_w == run,
            rise_w == rise,
            up == (n0 <= n1),
            rise == if up { n1 - n0 } else { n0 - n1 },
            1 <= k <= run,
            r < run,
            fl * run + r == wu_position(pa, pb, k - 1),
            canvas.buffer@ == plot_all(f, before, pts.subrange(0, 2 * k), color),
        decreases run - k,
    {
        proof {
            assert(wu_position(pa, pb, k as int) == wu_position(pa, pb, k - 1) + (n1 - n0)) by (nonlinear_arith)
                requires
                    wu_position(pa, pb, k as int) == n0 * run + k * (n1 - n0),
                    wu_position(pa, pb, k - 1) == n0 * run + (k - 1) * (n1 - n0);
            lemma_wu_position_bounds(n0 as int, n1 as int, run as int, k as int);
            lemma_wu_position_bounds(n0 as int, n1 as int, run as int, k - 1);
        }
        let ghost fl0 = fl as int;
        let ghost r0 = r as int;
        let ghost p0 = wu_position(pa, pb, k - 1);
        let ghost p1 = wu_position(pa, pb, k as int);
        if up {
            r = r + rise_w;
            if r >= run_w {
                proof {
                    assert(fl + 1 <= n1) by (nonlinear_arith)
                        requires
                            fl0 * run + r0 == p0,
                            p1 == p0 + (n1 - n0),
                            r == r0 + (n1 - n0),
                            fl == fl0,
                            p1 <= n1 * run,
                            r >= run,
                            run > 0;
                }
                r = r - run_w;
                fl = fl + 1;
            }
        } else {
            if r >= rise_w {
                r = r - rise_w;
            } else {
                proof {
                    assert(fl >= 1) by (nonlinear_arith)
                        requires
                            fl0 * run + r0 == p0,
                            p1 == p0 + (n1 - n0),
                            rise == n0 - n1,
                            r == r0,
                            fl == fl0,
                            r < rise,
                            p1 >= 0,
                            run > 0;
                }
                r = r + run_w - rise_w;
                fl = fl - 1;
            }
        }
        proof {
            assert(fl * run + r == p1) by (nonlinear_arith)
                requires
                    fl0 * run + r0 == p0,
                    p1 == p0 + (n1 - n0),
                    up ==> rise == n1 - n0,
                    !up ==> rise == n0 - n1,
                    (up && fl == fl0 && r == r0 + rise) || (up && fl == fl0 + 1 && r == r0 + rise - run)
                        || (!up && fl == fl0 && r == r0 - rise) || (!up && fl == fl0 - 1 && r == r0 + run - rise);
            vstd::arithmetic::div_mod::lemma_fundamental_div_mod_converse(
                wu_position(pa, pb, k as int), run as int, fl as int, r as int);
            lemma_plot_all_step(f, before, pts, 2 * k, color);
            lemma_plot_all_step(f, before, pts, 2 * k + 1, color);
            assert((2 * k) / 2 == k);
            assert((2 * k + 1) / 2 == k);
        }
        let near = scale_alpha(color[0], run_w - r, run_w);
        let far = scale_alpha(color[0], r, run_w);
        if steep {
            canvas.plot_point(fl, m0 + k, near, color);
        } else {
            canvas.plot_point(m0 + k, fl, near, color);
        }
        if fl < usize::MAX {
            if steep {
                canvas.plot_point(fl + 1, m0 + k, far, color);
            } else {
                canvas.plot_point(m0 + k, fl + 1, far, color);
            }
        }
        k = k + 1;
    }
    proof {
        assert(pts.subrange(0, 2 * k) =~= pts);
    }
}

/// Where step `k` of `run` crosses lies between the two endpoints' cross coordinates.
proof fn lemma_wu_position_bounds(n0: int, n1: int, run: int, k: int)
    requires
        0 <= k <= run,
        run > 0,
        n0 >= 0,
        n1 >= 0,
    ensures
        n0 <= n1 ==> n0 * run <= n0 * run + k * (n1 - n0) <= n1 * run,
        n1 < n0 ==> n1 * run <= n0 * run + k * (n1 - n0) <= n0 * run,
        n0 * run + k * (n1 - n0) >= 0,
{
    if n0 <= n1 {
        assert(0 <= k * (n1 - n0) <= run * (n1 - n0)) by (nonlinear_arith)
            requires 0 <= k <= run, n0 <= n1;
        assert(n0 * run + run * (n1 - n0) == n1 * run) by (nonlinear_arith);
    } else {
        assert(run * (n1 - n0) <= k * (n1 - n0) <= 0) by (nonlinear_arith)
            requires 0 <= k <= run, n1 < n0;
        assert(n0 * run + run * (n1 - n0) == n1 * run) by (nonlinear_arith);
    }
    assert(n1 * run >= 0 && n0 * run >= 0) by (nonlinear_arith)
        requires n0 >= 0, n1 >= 0, run > 0;
}

/// `alpha` scaled by a coverage of `cov / run`; see `coverage_alpha`.
fn scale_alpha(alpha: u8, cov: u128, run: u128) -> (r: u8)
    requires
        cov <= run,
        0 < run <= usize::MAX,
    ensures
        r == coverage_alpha(alpha, cov as int, run as int),
{
    let a = alpha as u128;
    proof {
        assert(a * cov <= a * run) by (nonlinear_arith)
            requires cov <= run, a >= 0;
        assert(a * run <= 255 * run) by (nonlinear_arith)
            requires a <= 255, run >= 0;
        vstd::arithmetic::div_mod::lemma_div_is_ordered((a * cov) as int, (a * run) as int, run as int);
        vstd::arithmetic::div_mod::lemma_div_by_multiple(a as int, run as int);
    }
    (a * cov / run) as u8
}

/// The endpoints in the line's own axes, as `axes` gives them.
fn order_axes(a: (usize, usize), b: (usize, usize)) -> (r: (bool, usize, usize, usize, usize))
    ensures
        (r.0, r.1 as int, r.2 as int, r.3 as int, r.4 as int) == axes((a.0 as int, a.1 as int), (b.0 as int, b.1 as int)),
{
    let dx = if a.0 <= b.0 { b.0 - a.0 } else { a.0 - b.0 };
    let dy = if a.1 <= b.1 { b.1 - a.1 } else { a.1 - b.1 };
    let steep = dy > dx;
    let (ma, na, mb, nb) = if steep { (a.1, a.0, b.1, b.0) } else { (a.0, a.1, b.0, b.1) };
    if ma <= mb {
        (steep, ma, na, mb, nb)
    } else {
        (steep, mb, nb, ma, na)
    }
}

} // verus!
