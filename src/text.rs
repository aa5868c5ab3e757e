//! Text, composited from the glyph coverage that a font engine lays out.
use vstd::prelude::*;

use crate::{lemma_plot_all_step, plot, plot_all, Canvas, Drawable, Frame};

pub mod fontconfig;

verus! {

/// One laid-out glyph, in whole pixels relative to the position of its text.
#[derive(Clone, Debug)]
pub struct Glyph {
    /// Left edge of the glyph's box
    pub left: i32,
    /// Top edge of the glyph's box
    pub top: i32,
    /// Right edge of the glyph's box
    pub right: i32,
    /// The pixels the glyph covers: column and row within its box, and coverage from 0
    /// (none) to 255 (full)
    pub coverage: Vec<(u32, u32, u8)>,
}

/// A line of text as a font engine laid it out, ready to be drawn
pub struct TextRun {
    /// Where the text's layout box starts on the canvas
    pub pos: (usize, usize),
    /// The color of the text, alpha first
    pub color: [u8; 4],
    /// The glyphs, left to right, laid out from the origin
    pub glyphs: Vec<Glyph>,
}

/// `alpha` scaled by a coverage of `c / 255`, rounded down.
pub open spec fn covered_alpha(alpha: u8, c: u8) -> u8 {
    (alpha as int * c as int / 255) as u8
}

/// The points glyph `g` paints when its text stands at `pos`, each with its opacity.
pub open spec fn glyph_points(pos: (usize, usize), g: Glyph, alpha: u8) -> Seq<(int, int, u8)> {
    Seq::new(
        g.coverage@.len(),
        |k: int|
            (
                pos.0 + g.left + g.coverage@[k].0,
                pos.1 + g.top + g.coverage@[k].1,
                covered_alpha(alpha, g.coverage@[k].2),
            ),
    )
}

/// The points of each glyph of `glyphs` in turn.
pub open spec fn run_points(pos: (usize, usize), glyphs: Seq<Glyph>, alpha: u8) -> Seq<(int, int, u8)>
    decreases glyphs.len(),
{
    if glyphs.len() == 0 {
        seq![]
    } else {
        run_points(pos, glyphs.drop_last(), alpha) + glyph_points(pos, glyphs.last(), alpha)
    }
}

impl TextRun {
    /// Creates a run of laid-out glyphs at `pos`.
    pub fn new(pos: (usize, usize), color: [u8; 4], glyphs: Vec<Glyph>) -> (r: TextRun)
        ensures
            r.pos == pos,
            r.color == color,
            r.glyphs@ == glyphs@,
    {
        TextRun { pos, color, glyphs }
    }

    /// The points the text paints, glyph by glyph, each with its opacity.
    pub open spec fn points(&self) -> Seq<(int, int, u8)> {
        run_points(self.pos, self.glyphs@, self.color[0])
    }

    /// From the left edge of the first glyph to the right edge of the last; none for no
    /// glyphs, or where the last ends before the first begins.
    pub open spec fn width(&self) -> int {
        let g = self.glyphs@;
        if g.len() == 0 || g.last().right < g[0].left {
            0
        } else {
            g.last().right - g[0].left
        }
    }

    /// Calculates the width in pixels of the text
    pub fn get_width(&self) -> (r: usize)
        ensures
            r == self.width(),
    {
        let n = self.glyphs.len();
        if n == 0 {
            return 0;
        }
        let first = self.glyphs[0].left as i64;
        let last = self.glyphs[n - 1].right as i64;
        if last < first {
            0
        } else {
            (last - first) as u32 as usize
        }
    }
}

impl Drawable for TextRun {
    open spec fn painted(&self, f: Frame, before: Seq<u8>) -> Seq<u8> {
        plot_all(f, before, self.points(), self.color)
    }

    fn draw(&self, canvas: &mut Canvas) {
        let ghost f = canvas.frame();
        let ghost before = canvas.buffer@;
        let alpha = self.color[0] as u32;
        let mut gi: usize = 0;
        while gi < self.glyphs.len()
            invariant
                canvas.wf(),
                canvas.frame() == f,
                gi <= self.glyphs@.len(),
                alpha == self.color[0],
                canvas.buffer@ == plot_all(f, before, run_points(self.pos, self.glyphs@.take(gi as int), self.color[0]), self.color),
            decreases self.glyphs@.len() - gi,
        {
            let g = &self.glyphs[gi];
            let ghost done = run_points(self.pos, self.glyphs@.take(gi as int), self.color[0]);
            let ghost all = done + glyph_points(self.pos, *g, self.color[0]);
            proof {
                assert(all.subrange(0, done.len() as int) =~= done);
                assert(self.glyphs@.take(gi + 1).drop_last() =~= self.glyphs@.take(gi as int));
                assert(all == run_points(self.pos, self.glyphs@.take(gi + 1), self.color[0]));
            }
            let mut k: usize = 0;
            while k < g.coverage.len()
                invariant
                    canvas.wf(),
                    canvas.frame() == f,
                    k <= g.coverage@.len(),
                    alpha == self.color[0],
                    all == done + glyph_points(self.pos, *g, self.color[0]),
                    canvas.buffer@ == plot_all(f, before, all.subrange(0, done.len() + k), self.color),
                decreases g.coverage@.len() - k,
            {
                let (gx, gy, c) = g.coverage[k];
                proof {
                    lemma_plot_all_step(f, before, all, done.len() + k, self.color);
                    assert(alpha * (c as u32) <= 255 * 255) by (nonlinear_arith)
                        requires alpha <= 255, c <= 255;
                }
                let x = self.pos.0 as i128 + g.left as i128 + gx as i128;
                let y = self.pos.1 as i128 + g.top as i128 + gy as i128;
                let a = (alpha * (c as u32) / 255) as u8;
                if 0 <= x && x < canvas.width as i128 && 0 <= y && y < canvas.height as i128 {
                    canvas.plot_point(x as usize, y as usize, a, self.color);
                } else {
                    assert(plot(f, canvas.buffer@, x as int, y as int, a, self.color) == canvas.buffer@);
                }
                k = k + 1;
            }
            proof {
                assert(all.subrange(0, all.len() as int) =~= all);
            }
            gi = gi + 1;
        }
        proof {
            assert(self.glyphs@.take(self.glyphs@.len() as int) =~= self.glyphs@);
        }
    }
}

/// Moving text elsewhere leaves its width unchanged and moves every point it paints by the
/// same offset, with the same opacity.
pub proof fn lemma_text_translation(a: TextRun, b: TextRun)
    requires
        a.glyphs@ == b.glyphs@,
        a.color == b.color,
    ensures
        a.width() == b.width(),
        a.points().len() == b.points().len(),
        forall|j: int|
            0 <= j < a.points().len() ==> #[trigger] b.points()[j] == (
                a.points()[j].0 + (b.pos.0 - a.pos.0),
                a.points()[j].1 + (b.pos.1 - a.pos.1),
                a.points()[j].2,
            ),
{
    lemma_run_points_shift(a.pos, b.pos, a.glyphs@, a.color[0]);
}

/// The points of the same glyphs at two positions differ by the offset between them.
proof fn lemma_run_points_shift(pa: (usize, usize), pb: (usize, usize), glyphs: Seq<Glyph>, alpha: u8)
    ensures
        run_points(pa, glyphs, alpha).len() == run_points(pb, glyphs, alpha).len(),
        forall|j: int|
            0 <= j < run_points(pa, glyphs, alpha).len() ==> #[trigger] run_points(pb, glyphs, alpha)[j] == (
                run_points(pa, glyphs, alpha)[j].0 + (pb.0 - pa.0),
                run_points(pa, glyphs, alpha)[j].1 + (pb.1 - pa.1),
                run_points(pa, glyphs, alpha)[j].2,
            ),
    decreases glyphs.len(),
{
    if glyphs.len() > 0 {
        lemma_run_points_shift(pa, pb, glyphs.drop_last(), alpha);
    }
}

} // verus!
