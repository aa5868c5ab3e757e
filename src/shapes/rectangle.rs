//! Rectangles with optional borders, rounded corners and fill.
use vstd::prelude::*;

use crate::line::Line;
use crate::{Canvas, Drawable, Frame};

verus! {

/// The sides of a rectangle, each of which may be selected independently
#[derive(Clone, Copy, Debug, PartialEq, Eq, Structural)]
pub struct Sides {
    /// The top side
    pub top: bool,
    /// The bottom side
    pub bottom: bool,
    /// The left side
    pub left: bool,
    /// The right side
    pub right: bool,
}

impl Sides {
    /// No side
    pub fn empty() -> (r: Sides)
        ensures
            !r.top && !r.bottom && !r.left && !r.right,
    {
        Sides { top: false, bottom: false, left: false, right: false }
    }

    /// The top side alone
    pub fn top() -> (r: Sides)
        ensures
            r.top && !r.bottom && !r.left && !r.right,
    {
        Sides { top: true, bottom: false, left: false, right: false }
    }

    /// The bottom side alone
    pub fn bottom() -> (r: Sides)
        ensures
            !r.top && r.bottom && !r.left && !r.right,
    {
        Sides { top: false, bottom: true, left: false, right: false }
    }

    /// The left side alone
    pub fn left() -> (r: Sides)
        ensures
            !r.top && !r.bottom && r.left && !r.right,
    {
        Sides { top: false, bottom: false, left: true, right: false }
    }

    /// The right side alone
    pub fn right() -> (r: Sides)
        ensures
            !r.top && !r.bottom && !r.left && r.right,
    {
        Sides { top: false, bottom: false, left: false, right: true }
    }

    /// All four sides
    pub fn all() -> (r: Sides)
        ensures
            r.top && r.bottom && r.left && r.right,
    {
        Sides { top: true, bottom: true, left: true, right: true }
    }

    /// The sides selected in `self` or in `other`
    pub fn union(self, other: Sides) -> (r: Sides)
        ensures
            r.top == (self.top || other.top),
            r.bottom == (self.bottom || other.bottom),
            r.left == (self.left || other.left),
            r.right == (self.right || other.right),
    {
        Sides {
            top: self.top || other.top,
            bottom: self.bottom || other.bottom,
            left: self.left || other.left,
            right: self.right || other.right,
        }
    }

    /// Whether every side selected in `other` is selected in `self`
    pub fn contains(&self, other: Sides) -> (r: bool)
        ensures
            r == ((other.top ==> self.top) && (other.bottom ==> self.bottom) && (other.left ==> self.left)
                && (other.right ==> self.right)),
    {
        (!other.top || self.top) && (!other.bottom || self.bottom) && (!other.left || self.left) && (
        !other.right || self.right)
    }
}

/// Why a rectangle could not be made.
#[derive(Clone, Copy, Debug, PartialEq, Eq, Structural)]
pub enum RectangleError {
    /// The border is thicker than half the rectangle, the corner radius exceeds the border's
    /// thickness, or the rectangle reaches past the largest coordinate.
    InvalidGeometry,
}

/// A drawable object that represents a rectangle
#[derive(Clone, Copy)]
pub struct Rectangle {
    /// Position of the top-left corner of rectangle
    pub pos: (usize, usize),
    /// The size of the rectangle to be drawn, the border will be contained within this size
    pub size: (usize, usize),
    /// The border drawn around the perimeter of the rectangle: its thickness, color, the
    /// sides it is drawn on, and the radius of rounded corners
    pub border: Option<(usize, [u8; 4], Sides, Option<usize>)>,
    /// The color of the fill (area) of the rectangle
    pub fill: Option<[u8; 4]>,
}

/// The least `s` from `from` on with `v <= s * s + s`: from zero, `sqrt(v)` rounded to the
/// nearest integer.
pub open spec fn round_sqrt_from(v: int, from: int) -> int
    decreases v - from,
{
    if from < 0 || v <= from * from + from {
        from
    } else {
        round_sqrt_from(v, from + 1)
    }
}

/// `sqrt(v)` rounded to the nearest integer.
pub open spec fn round_sqrt(v: int) -> int {
    round_sqrt_from(v, 0)
}

/// How far ring `i` of a border with corner radius `r` stops short of a rounded corner:
/// `r - sqrt(r^2 - (r - i - 1)^2)` rounded, within the first `r` rings, else nothing.
pub open spec fn corner_inset(r: int, i: int) -> int {
    if i < r {
        r - round_sqrt(r * r - (r - i - 1) * (r - i - 1))
    } else {
        0
    }
}

/// The buffer after drawing each line of `lines` in order.
pub open spec fn paint_lines(f: Frame, b: Seq<u8>, lines: Seq<Line>) -> Seq<u8>
    decreases lines.len(),
{
    if lines.len() == 0 {
        b
    } else {
        lines.last().painted(f, paint_lines(f, b, lines.drop_last()))
    }
}

/// `line` alone if `cond` holds, else nothing.
pub open spec fn line_if(cond: bool, line: Line) -> Seq<Line> {
    if cond { seq![line] } else { seq![] }
}

impl Rectangle {
    /// Creates a new Rectangle object; fails if the border does not fit inside the rectangle,
    /// the corner radius exceeds the border's thickness, or the rectangle reaches past the
    /// largest coordinate.
    pub fn new(
        pos: (usize, usize),
        size: (usize, usize),
        border: Option<(usize, [u8; 4], Sides, Option<usize>)>,
        fill: Option<[u8; 4]>,
    ) -> (r: Result<Rectangle, RectangleError>)
        ensures
            r is Ok <==> (Rectangle { pos, size, border, fill }).geometry_ok(),
            r matches Ok(rect) ==> rect == (Rectangle { pos, size, border, fill }),
    {
        let rect = Rectangle { pos, size, border, fill };
        if rect.check_geometry() {
            Ok(rect)
        } else {
            Err(RectangleError::InvalidGeometry)
        }
    }

    /// The rectangle lies within the coordinate range, its border fits inside it, and its
    /// corner radius does not exceed the border's thickness.
    pub open spec fn geometry_ok(&self) -> bool {
        &&& self.pos.0 + self.size.0 <= usize::MAX
        &&& self.pos.1 + self.size.1 <= usize::MAX
        &&& match self.border {
            Some((t, _, _, round)) => {
                &&& 2 * t <= self.size.0
                &&& 2 * t <= self.size.1
                &&& match round {
                    Some(r) => r <= t,
                    None => true,
                }
            },
            None => true,
        }
    }

    /// Whether `geometry_ok` holds.
    pub fn check_geometry(&self) -> (r: bool)
        ensures
            r == self.geometry_ok(),
    {
        if self.pos.0 > usize::MAX - self.size.0 || self.pos.1 > usize::MAX - self.size.1 {
            return false;
        }
        match self.border {
            Some((t, _, _, round)) => {
                if t > self.size.0 / 2 || t > self.size.1 / 2 {
                    return false;
                }
                match round {
                    Some(r) => r <= t,
                    None => true,
                }
            },
            None => true,
        }
    }

    /// The border's thickness, none without a border.
    pub open spec fn thickness(&self) -> int {
        match self.border {
            Some(b) => b.0 as int,
            None => 0,
        }
    }

    /// The sides the border is drawn on.
    pub open spec fn border_sides(&self) -> Sides {
        match self.border {
            Some(b) => b.2,
            None => Sides { top: false, bottom: false, left: false, right: false },
        }
    }

    /// How far ring `i` of the border stops short of a rounded corner.
    pub open spec fn inset(&self, i: int) -> int {
        match self.border {
            Some((_, _, _, Some(r))) => corner_inset(r as int, i),
            _ => 0,
        }
    }

    /// The lines of ring `i` of the border, `i` pixels in from the outside: top, bottom,
    /// left, right, each on a side the border is drawn on. A corner whose two sides both
    /// carry the border is rounded: the ring stops short of it by `inset(i)`.
    pub open spec fn ring_lines(&self, i: int) -> Seq<Line> {
        let s = self.border_sides();
        let color = self.border.unwrap().1;
        let x0 = self.pos.0 as int;
        let y0 = self.pos.1 as int;
        let x1 = x0 + self.size.0 - 1;
        let y1 = y0 + self.size.1 - 1;
        let d = self.inset(i);
        let tl = if s.top && s.left { d } else { 0 };
        let tr = if s.top && s.right { d } else { 0 };
        let bl = if s.bottom && s.left { d } else { 0 };
        let br = if s.bottom && s.right { d } else { 0 };
        line_if(
            s.top && tl + tr < self.size.0,
            Line { pt1: ((x0 + tl) as usize, (y0 + i) as usize), pt2: ((x1 - tr) as usize, (y0 + i) as usize), color, antialiased: false },
        ) + line_if(
            s.bottom && bl + br < self.size.0,
            Line { pt1: ((x0 + bl) as usize, (y1 - i) as usize), pt2: ((x1 - br) as usize, (y1 - i) as usize), color, antialiased: false },
        ) + line_if(
            s.left && tl + bl < self.size.1,
            Line { pt1: ((x0 + i) as usize, (y0 + tl) as usize), pt2: ((x0 + i) as usize, (y1 - bl) as usize), color, antialiased: false },
        ) + line_if(
            s.right && tr + br < self.size.1,
            Line { pt1: ((x1 - i) as usize, (y0 + tr) as usize), pt2: ((x1 - i) as usize, (y1 - br) as usize), color, antialiased: false },
        )
    }

    /// The lines of the first `n` rings of the border, outermost first.
    pub open spec fn border_lines(&self, n: int) -> Seq<Line>
        decreases n,
    {
        if n <= 0 {
            seq![]
        } else {
            self.border_lines(n - 1) + self.ring_lines(n - 1)
        }
    }

    /// The part of the rectangle inside the border, as position and size: the rectangle less
    /// the border's thickness on each side that carries it.
    pub open spec fn area(&self) -> ((int, int), (int, int)) {
        let t = self.thickness();
        let s = self.border_sides();
        let left = if s.left { t } else { 0 };
        let right = if s.right { t } else { 0 };
        let top = if s.top { t } else { 0 };
        let bottom = if s.bottom { t } else { 0 };
        (
            (self.pos.0 + left, self.pos.1 + top),
            (self.size.0 - left - right, self.size.1 - top - bottom),
        )
    }

    /// The first `n` rows of the fill, top first.
    pub open spec fn fill_lines(&self, n: int) -> Seq<Line> {
        let ((ax, ay), (aw, ah)) = self.area();
        Seq::new(
            n as nat,
            |j: int|
                Line {
                    pt1: (ax as usize, (ay + j) as usize),
                    pt2: ((ax + aw - 1) as usize, (ay + j) as usize),
                    color: self.fill.unwrap(),
                    antialiased: false,
                },
        )
    }

    /// Every line the rectangle draws, in order: the border's rings, then the fill's rows.
    pub open spec fn lines(&self) -> Seq<Line> {
        let ((ax, ay), (aw, ah)) = self.area();
        self.border_lines(self.thickness()) + if self.fill is Some && aw > 0 {
            self.fill_lines(ah)
        } else {
            seq![]
        }
    }

    /// Measures the part of the rectangle inside the border, as position and size.
    pub fn measure_area(&self) -> (r: ((usize, usize), (usize, usize)))
        requires
            self.geometry_ok(),
        ensures
            r.0.0 == self.area().0.0,
            r.0.1 == self.area().0.1,
            r.1.0 == self.area().1.0,
            r.1.1 == self.area().1.1,
    {
        let (mut area_pos, mut area_size) = (self.pos, self.size);
        if let Some(border) = self.border {
            if border.2.top {
                area_pos.1 = area_pos.1 + border.0;
                area_size.1 = area_size.1 - border.0;
            }
            if border.2.bottom {
                area_size.1 = area_size.1 - border.0;
            }
            if border.2.left {
                area_pos.0 = area_pos.0 + border.0;
                area_size.0 = area_size.0 - border.0;
            }
            if border.2.right {
                area_size.0 = area_size.0 - border.0;
            }
        }
        (area_pos, area_size)
    }
}

impl Rectangle {
    /// Draws the rings of the border, outermost first.
    fn draw_borders(&self, canvas: &mut Canvas)
        requires
            old(canvas).wf(),
            self.geometry_ok(),
        ensures
            final(canvas).frame() == old(canvas).frame(),
            final(canvas).wf(),
            final(canvas).buffer@ == paint_lines(old(canvas).frame(), old(canvas).buffer@, self.border_lines(self.thickness())),
    {
        let ghost f = canvas.frame();
        let ghost before = canvas.buffer@;
        if let Some((t, color, sides, round)) = self.border {
            let mut i: usize = 0;
            while i < t
                invariant
                    canvas.wf(),
                    canvas.frame() == f,
                    self.geometry_ok(),
                    self.border == Some((t, color, sides, round)),
                    i <= t,
                    canvas.buffer@ == paint_lines(f, before, self.border_lines(i as int)),
                decreases t - i,
            {
                self.draw_ring(canvas, i);
                proof {
                    lemma_paint_lines_append(f, before, self.border_lines(i as int), self.ring_lines(i as int));
                }
                i = i + 1;
            }
        }
    }

    /// Draws ring `i` of the border.
    fn draw_ring(&self, canvas: &mut Canvas, i: usize)
        requires
            old(canvas).wf(),
            self.geometry_ok(),
            self.border is Some,
            i < self.thickness(),
        ensures
            final(canvas).frame() == old(canvas).frame(),
            final(canvas).wf(),
            final(canvas).buffer@ == paint_lines(old(canvas).frame(), old(canvas).buffer@, self.ring_lines(i as int)),
    {
        let ghost f = canvas.frame();
        let ghost before = canvas.buffer@;
        let (t, color, sides, round) = self.border.unwrap();
        let x0 = self.pos.0;
        let y0 = self.pos.1;
        let x1 = x0 + self.size.0 - 1;
        let y1 = y0 + self.size.1 - 1;
        let d = match round {
            Some(r) => inset_at(r, i),
            None => 0,
        };
        let tl = if sides.top && sides.left { d } else { 0 };
        let tr = if sides.top && sides.right { d } else { 0 };
        let bl = if sides.bottom && sides.left { d } else { 0 };
        let br = if sides.bottom && sides.right { d } else { 0 };
        let ghost done: Seq<Line> = seq![];
        assert(canvas.buffer@ == paint_lines(f, before, done));
        if sides.top && tl + tr < self.size.0 {
            let l = Line::new((x0 + tl, y0 + i), (x1 - tr, y0 + i), color, false);
            l.draw(canvas);
            proof {
                assert(done.push(l).drop_last() =~= done);
                done = done.push(l);
                assert(canvas.buffer@ == paint_lines(f, before, done));
            }
        }
        let ghost top = done;
        if sides.bottom && bl + br < self.size.0 {
            let l = Line::new((x0 + bl, y1 - i), (x1 - br, y1 - i), color, false);
            l.draw(canvas);
            proof {
                assert(done.push(l).drop_last() =~= done);
                done = done.push(l);
                assert(canvas.buffer@ == paint_lines(f, before, done));
            }
        }
        let ghost bottom = done;
        if sides.left && tl + bl < self.size.1 {
            let l = Line::new((x0 + i, y0 + tl), (x0 + i, y1 - bl), color, false);
            l.draw(canvas);
            proof {
                assert(done.push(l).drop_last() =~= done);
                done = done.push(l);
                assert(canvas.buffer@ == paint_lines(f, before, done));
            }
        }
        if sides.right && tr + br < self.size.1 {
            let l = Line::new((x1 - i, y0 + tr), (x1 - i, y1 - br), color, false);
            l.draw(canvas);
            proof {
                assert(done.push(l).drop_last() =~= done);
                done = done.push(l);
                assert(canvas.buffer@ == paint_lines(f, before, done));
            }
        }
        assert(done =~= self.ring_lines(i as int));
    }

    /// Draws the fill, one row at a time from the top.
    fn draw_area(&self, canvas: &mut Canvas)
        requires
            old(canvas).wf(),
            self.geometry_ok(),
        ensures
            final(canvas).frame() == old(canvas).frame(),
            final(canvas).wf(),
            final(canvas).buffer@ == paint_lines(
                old(canvas).frame(),
                old(canvas).buffer@,
                if self.fill is Some && self.area().1.0 > 0 { self.fill_lines(self.area().1.1) } else { seq![] },
            ),
    {
        let ghost f = canvas.frame();
        let ghost before = canvas.buffer@;
        if let Some(fill) = self.fill {
            let ((ax, ay), (aw, ah)) = self.measure_area();
            if aw > 0 {
                let mut j: usize = 0;
                while j < ah
                    invariant
                        canvas.wf(),
                        canvas.frame() == f,
                        self.geometry_ok(),
                        self.fill == Some(fill),
                        ax == self.area().0.0,
                        ay == self.area().0.1,
                        aw == self.area().1.0,
                        ah == self.area().1.1,
                        aw > 0,
                        j <= ah,
                        canvas.buffer@ == paint_lines(f, before, self.fill_lines(j as int)),
                    decreases ah - j,
                {
                    let l = Line::new((ax, ay + j), (ax + aw - 1, ay + j), fill, false);
                    l.draw(canvas);
                    proof {
                        assert(self.fill_lines(j + 1).drop_last() =~= self.fill_lines(j as int));
                        assert(self.fill_lines(j + 1).last() == l);
                    }
                    j = j + 1;
                }
            } else {
                proof {
                    assert(paint_lines(f, before, seq![]) == before);
                }
            }
        }
    }
}

/// Drawing two lists of lines one after the other draws their concatenation.
pub proof fn lemma_paint_lines_append(f: Frame, b: Seq<u8>, s: Seq<Line>, t: Seq<Line>)
    ensures
        paint_lines(f, b, s + t) == paint_lines(f, paint_lines(f, b, s), t),
    decreases t.len(),
{
    if t.len() == 0 {
        assert(s + t =~= s);
    } else {
        assert((s + t).drop_last() =~= s + t.drop_last());
        lemma_paint_lines_append(f, b, s, t.drop_last());
    }
}

/// The inset of ring `i` for corner radius `r`; see `corner_inset`.
fn inset_at(r: usize, i: usize) -> (d: usize)
    ensures
        d == corner_inset(r as int, i as int),
        d <= r,
{
    if i >= r {
        return 0;
    }
    let rr = r as u128;
    let e = (r - i - 1) as u128;
    proof {
        assert(e * e <= rr * rr) by (nonlinear_arith)
            requires e < rr;
        assert(rr * rr <= 0xffff_ffff_ffff_ffffu128 * 0xffff_ffff_ffff_ffffu128) by (nonlinear_arith)
            requires rr <= 0xffff_ffff_ffff_ffffu128;
    }
    let v = rr * rr - e * e;
    let s = nearest_sqrt(v, rr);
    r - s as usize
}

/// `sqrt(v)` rounded to the nearest integer, found by counting up from zero; `bound` is known
/// to be at least the answer.
fn nearest_sqrt(v: u128, bound: u128) -> (s: u128)
    requires
        v <= bound * bound + bound,
        bound <= usize::MAX,
    ensures
        s == round_sqrt(v as int),
        s <= bound,
{
    let mut s: u128 = 0;
    proof {
        assert(bound * bound + bound <= 0xffff_ffff_ffff_ffffu128 * 0xffff_ffff_ffff_ffffu128 + 0xffff_ffff_ffff_ffffu128)
            by (nonlinear_arith)
            requires bound <= 0xffff_ffff_ffff_ffffu128;
    }
    loop
        invariant
            s <= bound,
            bound <= usize::MAX,
            v <= bound * bound + bound,
            bound * bound + bound <= 0xffff_ffff_ffff_ffffu128 * 0xffff_ffff_ffff_ffffu128 + 0xffff_ffff_ffff_ffffu128,
            round_sqrt_from(v as int, s as int) == round_sqrt(v as int),
        decreases bound - s,
    {
        proof {
            assert(s * s + s <= bound * bound + bound) by (nonlinear_arith)
                requires s <= bound;
        }
        if s * s + s >= v {
            return s;
        }
        proof {
            assert(s < bound) by (nonlinear_arith)
                requires s * s + s < v, v <= bound * bound + bound, s >= 0;
        }
        s = s + 1;
    }
}

impl Drawable for Rectangle {
    /// A rectangle whose geometry is not valid draws nothing.
    open spec fn painted(&self, f: Frame, before: Seq<u8>) -> Seq<u8> {
        if self.geometry_ok() {
            paint_lines(f, before, self.lines())
        } else {
            before
        }
    }

    fn draw(&self, canvas: &mut Canvas) {
        if self.check_geometry() {
            let ghost f = canvas.frame();
            let ghost before = canvas.buffer@;
            self.draw_borders(canvas);
            self.draw_area(canvas);
            proof {
                let ((ax, ay), (aw, ah)) = self.area();
                lemma_paint_lines_append(
                    f,
                    before,
                    self.border_lines(self.thickness()),
                    if self.fill is Some && aw > 0 { self.fill_lines(ah) } else { seq![] },
                );
            }
        }
    }
}

} // verus!
