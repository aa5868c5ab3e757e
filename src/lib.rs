//! Andrew draws lines, rectangles and text straight into a caller's pixel buffer.
use vstd::prelude::*;

pub mod line;
pub mod shapes;
pub mod text;

verus! {

/// Byte order of the channels of a stored pixel.
#[derive(Debug, Clone, Copy, PartialEq, Eq, Structural)]
pub enum Endian {
    /// Channels stored last-to-first: blue, green, red, alpha.
    Little,
    /// Channels stored in logical order: alpha, red, green, blue.
    Big,
}

impl Endian {
    /// The byte order of the machine this runs on.
    pub fn native() -> (r: Endian) {
        if native_one() == 1 {
            Endian::Little
        } else {
            Endian::Big
        }
    }
}

/// Relies on `u16::from_ne_bytes`: the bytes `[1, 0]` read in native order give 1 on a
/// little-endian machine and 256 on a big-endian one.
#[verifier::external_body]
fn native_one() -> (r: u16)
    ensures
        r == 1 || r == 256,
{
    u16::from_ne_bytes([1, 0])
}

/// Something that can paint itself onto a canvas.
pub trait Drawable {
    /// The buffer after drawing `self` onto a canvas with frame `f` holding `before`.
    spec fn painted(&self, f: Frame, before: Seq<u8>) -> Seq<u8>;

    /// Draws `self` onto the canvas.
    fn draw(&self, canvas: &mut Canvas)
        requires
            old(canvas).wf(),
        ensures
            final(canvas).frame() == old(canvas).frame(),
            final(canvas).wf(),
            final(canvas).buffer@ == self.painted(old(canvas).frame(), old(canvas).buffer@),
    ;
}

/// The geometry of a canvas, as the contracts see it.
pub struct Frame {
    /// Width in pixels
    pub width: nat,
    /// Height in pixels
    pub height: nat,
    /// Bytes from one row of pixels to the next
    pub stride: nat,
    /// Bytes per pixel
    pub pixel_size: nat,
    /// Byte order of the stored channels
    pub endianness: Endian,
}

/// Where logical channel `k` (0 = alpha, 1..=3 colour) sits within a stored pixel.
pub open spec fn channel_offset(e: Endian, k: int) -> int {
    match e {
        Endian::Little => 3 - k,
        Endian::Big => k,
    }
}

/// One colour channel after compositing `channel` with opacity `alpha` over `existing`,
/// rounded down.
pub open spec fn blend(existing: u8, channel: u8, alpha: u8) -> u8 {
    ((existing as int * (255 - alpha as int) + channel as int * alpha as int) / 255) as u8
}

/// The buffer after compositing the colour channels of `color` with opacity `alpha` into
/// the pixel that starts at byte `base`: stored alpha becomes opaque, each colour channel
/// is blended.
pub open spec fn composite(b: Seq<u8>, base: int, e: Endian, alpha: u8, color: [u8; 4]) -> Seq<u8> {
    let o1 = base + channel_offset(e, 1);
    let o2 = base + channel_offset(e, 2);
    let o3 = base + channel_offset(e, 3);
    b.update(base + channel_offset(e, 0), 255u8)
        .update(o1, blend(b[o1], color[1], alpha))
        .update(o2, blend(b[o2], color[2], alpha))
        .update(o3, blend(b[o3], color[3], alpha))
}

/// The buffer after a point write at `(x, y)`; a point outside the frame is dropped.
pub open spec fn plot(f: Frame, b: Seq<u8>, x: int, y: int, alpha: u8, color: [u8; 4]) -> Seq<u8> {
    if 0 <= x < f.width && 0 <= y < f.height {
        composite(b, f.stride * y + f.pixel_size * x, f.endianness, alpha, color)
    } else {
        b
    }
}

/// The buffer after plotting each point `(x, y, alpha)` of `pts` in order, in the colour
/// channels of `color`.
pub open spec fn plot_all(f: Frame, b: Seq<u8>, pts: Seq<(int, int, u8)>, color: [u8; 4]) -> Seq<u8>
    decreases pts.len(),
{
    if pts.len() == 0 {
        b
    } else {
        let p = pts.last();
        plot(f, plot_all(f, b, pts.drop_last(), color), p.0, p.1, p.2, color)
    }
}

/// Plotting points that all fall outside the frame changes nothing.
pub(crate) proof fn lemma_plot_all_outside(f: Frame, b: Seq<u8>, pts: Seq<(int, int, u8)>, k: int, color: [u8; 4])
    requires
        0 <= k <= pts.len(),
        forall|j: int| k <= j < pts.len() ==> !(0 <= #[trigger] pts[j].0 < f.width && 0 <= pts[j].1 < f.height),
    ensures
        plot_all(f, b, pts, color) == plot_all(f, b, pts.subrange(0, k), color),
    decreases pts.len(),
{
    if pts.len() == k {
        assert(pts.subrange(0, k) =~= pts);
    } else {
        assert(!(0 <= pts[pts.len() - 1].0 < f.width && 0 <= pts[pts.len() - 1].1 < f.height));
        lemma_plot_all_outside(f, b, pts.drop_last(), k, color);
        assert(pts.drop_last().subrange(0, k) =~= pts.subrange(0, k));
    }
}

/// Plotting one more point extends a prefix by that point.
pub(crate) proof fn lemma_plot_all_step(f: Frame, b: Seq<u8>, pts: Seq<(int, int, u8)>, k: int, color: [u8; 4])
    requires
        0 <= k < pts.len(),
    ensures
        plot_all(f, b, pts.subrange(0, k + 1), color)
            == plot(f, plot_all(f, b, pts.subrange(0, k), color), pts[k].0, pts[k].1, pts[k].2, color),
{
    assert(pts.subrange(0, k + 1).drop_last() =~= pts.subrange(0, k));
}

/// A canvas over a pixel buffer that the caller owns.
pub struct Canvas<'a> {
    /// The pixel bytes drawn to
    pub buffer: &'a mut [u8],
    /// Width in pixels
    pub width: usize,
    /// Height in pixels
    pub height: usize,
    /// Bytes from one row of pixels to the next
    pub stride: usize,
    /// Bytes per pixel
    pub pixel_size: usize,
    /// Byte order of the stored channels
    pub endianness: Endian,
}

/// Why a canvas could not be made.
#[derive(Debug, Clone, Copy, PartialEq, Eq, Structural)]
pub enum CanvasError {
    /// The stride is not a whole number of pixels of at least four bytes, or the buffer
    /// does not hold `stride * height` bytes.
    InvalidDimensions,
}

/// Whether the dimensions describe a buffer of `len` bytes with four-byte pixels at least.
pub open spec fn dimensions_ok(len: int, width: int, height: int, stride: int) -> bool {
    &&& width > 0
    &&& stride % width == 0
    &&& stride / width >= 4
    &&& len == stride * height
}

impl<'a> Canvas<'a> {
    /// The canvas's geometry.
    pub open spec fn frame(&self) -> Frame {
        Frame {
            width: self.width as nat,
            height: self.height as nat,
            stride: self.stride as nat,
            pixel_size: self.pixel_size as nat,
            endianness: self.endianness,
        }
    }

    /// The canvas's fields agree with its buffer.
    pub open spec fn wf(&self) -> bool {
        &&& dimensions_ok(self.buffer@.len() as int, self.width as int, self.height as int, self.stride as int)
        &&& self.pixel_size == self.stride / self.width
    }

    /// The first byte of pixel `(x, y)`.
    pub open spec fn pixel_base(&self, x: int, y: int) -> int {
        self.stride * y + self.pixel_size * x
    }

    /// Wraps a buffer of `height` rows of `stride` bytes, each row holding `width` pixels.
    /// Fails unless the stride is a whole number of pixels of at least four bytes and the
    /// buffer holds exactly `stride * height` bytes.
    pub fn new(
        buffer: &'a mut [u8],
        width: usize,
        height: usize,
        stride: usize,
        endianness: Endian,
    ) -> (r: Result<Canvas<'a>, CanvasError>)
        ensures
            r is Ok <==> dimensions_ok(old(buffer)@.len() as int, width as int, height as int, stride as int),
            r is Err ==> final(buffer)@ == old(buffer)@,
            r matches Ok(c) ==> {
                &&& c.wf()
                &&& c.buffer@ == old(buffer)@
                &&& final(c.buffer)@ == final(buffer)@
                &&& c.width == width
                &&& c.height == height
                &&& c.stride == stride
                &&& c.endianness == endianness
            },
    {
        let len = buffer.len();
        if width == 0 || stride % width != 0 || stride / width < 4 {
            return Err(CanvasError::InvalidDimensions);
        }
        match stride.checked_mul(height) {
            Some(n) => {
                if len != n {
                    return Err(CanvasError::InvalidDimensions);
                }
            },
            None => {
                return Err(CanvasError::InvalidDimensions);
            },
        }
        let pixel_size = stride / width;
        Ok(Canvas { buffer, width, height, stride, pixel_size, endianness })
    }

    /// Draws `drawable` onto the canvas.
    pub fn draw<D: Drawable>(&mut self, drawable: &D)
        requires
            old(self).wf(),
        ensures
            final(self).frame() == old(self).frame(),
            final(self).wf(),
            final(self).buffer@ == drawable.painted(old(self).frame(), old(self).buffer@),
    {
        drawable.draw(self);
    }

    /// Sets every byte of the buffer to zero.
    pub fn clear(&mut self)
        requires
            old(self).wf(),
        ensures
            final(self).frame() == old(self).frame(),
            final(self).wf(),
            final(self).buffer@ == Seq::new(old(self).buffer@.len(), |i: int| 0u8),
    {
        let n = self.buffer.len();
        let mut i: usize = 0;
        while i < n
            invariant
                n == self.buffer@.len(),
                i <= n,
                self.frame() == old(self).frame(),
                self.wf(),
                forall|j: int| 0 <= j < i ==> self.buffer@[j] == 0u8,
            decreases n - i,
        {
            self.buffer[i] = 0;
            i = i + 1;
        }
        assert(self.buffer@ =~= Seq::new(n as nat, |i: int| 0u8));
    }

    /// Draws a pixel with opacity `alpha` in the colour channels of `color`, if `(x, y)` lies
    /// on the canvas; otherwise does nothing.
    pub(crate) fn plot_point(&mut self, x: usize, y: usize, alpha: u8, color: [u8; 4])
        requires
            old(self).wf(),
        ensures
            final(self).frame() == old(self).frame(),
            final(self).wf(),
            final(self).buffer@ == plot(old(self).frame(), old(self).buffer@, x as int, y as int, alpha, color),
    {
        if x < self.width && y < self.height {
            let c = [alpha, color[1], color[2], color[3]];
            self.draw_point(x, y, c);
        }
    }

    /// Draws one pixel: an opaque colour replaces the pixel, a translucent one is blended
    /// over it. The stored pixel is opaque afterwards.
    pub fn draw_point(&mut self, x: usize, y: usize, color: [u8; 4])
        requires
            old(self).wf(),
            x < old(self).width,
            y < old(self).height,
        ensures
            final(self).frame() == old(self).frame(),
            final(self).wf(),
            final(self).buffer@ == composite(
                old(self).buffer@,
                old(self).pixel_base(x as int, y as int),
                old(self).endianness,
                color[0],
                color,
            ),
    {
        let len = self.buffer.len();
        proof {
            lemma_pixel_in_buffer(self.width as int, self.height as int, self.stride as int, x as int, y as int);
        }
        let base = self.stride * y + self.pixel_size * x;
        let ghost b = self.buffer@;
        match self.endianness {
            Endian::Little => {
                if color[0] == 255 {
                    self.buffer[base + 3] = 255;
                    self.buffer[base + 2] = color[1];
                    self.buffer[base + 1] = color[2];
                    self.buffer[base] = color[3];
                    proof { lemma_blend_opaque(b[base + 2], color[1]); lemma_blend_opaque(b[base + 1], color[2]); lemma_blend_opaque(b[base as int], color[3]); }
                } else {
                    self.buffer[base + 3] = 255;
                    let c1 = blend_channel(self.buffer[base + 2], color[1], color[0]);
                    self.buffer[base + 2] = c1;
                    let c2 = blend_channel(self.buffer[base + 1], color[2], color[0]);
                    self.buffer[base + 1] = c2;
                    let c3 = blend_channel(self.buffer[base], color[3], color[0]);
                    self.buffer[base] = c3;
                }
            },
            Endian::Big => {
                if color[0] == 255 {
                    self.buffer[base] = 255;
                    self.buffer[base + 1] = color[1];
                    self.buffer[base + 2] = color[2];
                    self.buffer[base + 3] = color[3];
                    proof { lemma_blend_opaque(b[base + 1], color[1]); lemma_blend_opaque(b[base + 2], color[2]); lemma_blend_opaque(b[base + 3], color[3]); }
                } else {
                    self.buffer[base] = 255;
                    let c1 = blend_channel(self.buffer[base + 1], color[1], color[0]);
                    self.buffer[base + 1] = c1;
                    let c2 = blend_channel(self.buffer[base + 2], color[2], color[0]);
                    self.buffer[base + 2] = c2;
                    let c3 = blend_channel(self.buffer[base + 3], color[3], color[0]);
                    self.buffer[base + 3] = c3;
                }
            },
        }
        assert(self.buffer@ =~= composite(b, base as int, self.endianness, color[0], color));
    }
}

/// Blends one channel; see `blend`.
fn blend_channel(existing: u8, channel: u8, alpha: u8) -> (r: u8)
    ensures
        r == blend(existing, channel, alpha),
{
    let e = existing as u32;
    let c = channel as u32;
    let a = alpha as u32;
    proof {
        assert(e * (255 - a) + c * a <= 255 * 255) by (nonlinear_arith)
            requires e <= 255, c <= 255, a <= 255;
    }
    ((e * (255 - a) + c * a) / 255) as u8
}

/// A point drawn with full opacity leaves exactly the colour's channels, in the canvas's
/// byte order, and an opaque alpha; no other byte changes.
pub proof fn lemma_opaque_point_is_exact(b: Seq<u8>, base: int, e: Endian, color: [u8; 4])
    requires
        color[0] == 255,
        0 <= base,
        base + 4 <= b.len(),
    ensures
        composite(b, base, e, color[0], color)[base + channel_offset(e, 0)] == 255,
        forall|k: int| 1 <= k <= 3 ==> composite(b, base, e, color[0], color)[#[trigger] (base + channel_offset(e, k))] == color[k],
        forall|i: int| 0 <= i < b.len() && !(base <= i < base + 4) ==> composite(b, base, e, color[0], color)[i] == b[i],
        composite(b, base, e, color[0], color).len() == b.len(),
{
    lemma_blend_opaque(b[base + channel_offset(e, 1)], color[1]);
    lemma_blend_opaque(b[base + channel_offset(e, 2)], color[2]);
    lemma_blend_opaque(b[base + channel_offset(e, 3)], color[3]);
}

/// A translucent point leaves each colour channel at the exact interpolation
/// `existing + (channel - existing) * alpha / 255` rounded down, which is the nearest integer
/// wherever the fraction dropped is below one half; alpha becomes opaque.
pub proof fn lemma_translucent_point_blends(b: Seq<u8>, base: int, e: Endian, color: [u8; 4])
    requires
        0 < color[0] < 255,
        0 <= base,
        base + 4 <= b.len(),
    ensures
        composite(b, base, e, color[0], color)[base + channel_offset(e, 0)] == 255,
        forall|k: int| 1 <= k <= 3 ==> {
            let old_c = b[#[trigger] (base + channel_offset(e, k))] as int;
            let new_c = composite(b, base, e, color[0], color)[base + channel_offset(e, k)] as int;
            let exact_times_255 = old_c * 255 + (color[k] as int - old_c) * color[0] as int;
            &&& 255 * new_c <= exact_times_255 < 255 * (new_c + 1)
            &&& exact_times_255 % 255 < 128 ==> new_c == (2 * exact_times_255 + 255) / 510
        },
        forall|i: int| 0 <= i < b.len() && !(base <= i < base + 4) ==> composite(b, base, e, color[0], color)[i] == b[i],
{
    assert forall|k: int| 1 <= k <= 3 implies {
        let old_c = b[#[trigger] (base + channel_offset(e, k))] as int;
        let new_c = composite(b, base, e, color[0], color)[base + channel_offset(e, k)] as int;
        let exact_times_255 = old_c * 255 + (color[k] as int - old_c) * color[0] as int;
        &&& 255 * new_c <= exact_times_255 < 255 * (new_c + 1)
        &&& exact_times_255 % 255 < 128 ==> new_c == (2 * exact_times_255 + 255) / 510
    } by {
        let old_c = b[base + channel_offset(e, k)];
        lemma_blend_floor(old_c, color[k], color[0]);
    }
}

/// `blend` is the floor of the exact interpolation, and its nearest integer when the
/// dropped fraction is under one half.
proof fn lemma_blend_floor(existing: u8, channel: u8, alpha: u8)
    ensures ({
        let n = existing as int * 255 + (channel as int - existing as int) * alpha as int;
        let v = blend(existing, channel, alpha) as int;
        &&& 255 * v <= n < 255 * (v + 1)
        &&& n % 255 < 128 ==> v == (2 * n + 255) / 510
    }),
{
    let e = existing as int;
    let c = channel as int;
    let a = alpha as int;
    let n = e * 255 + (c - e) * a;
    assert(n == e * (255 - a) + c * a) by (nonlinear_arith)
        requires n == e * 255 + (c - e) * a;
    assert(0 <= n <= 255 * 255) by (nonlinear_arith)
        requires n == e * (255 - a) + c * a, 0 <= e <= 255, 0 <= c <= 255, 0 <= a <= 255;
    let v = n / 255;
    let r = n % 255;
    vstd::arithmetic::div_mod::lemma_fundamental_div_mod(n, 255);
    assert(v <= 255);
    assert(blend(existing, channel, alpha) as int == v);
    if r < 128 {
        assert(2 * n + 255 == 510 * v + (2 * r + 255));
        vstd::arithmetic::div_mod::lemma_fundamental_div_mod_converse(2 * n + 255, 510, v, 2 * r + 255);
    }
}

proof fn lemma_blend_opaque(existing: u8, channel: u8)
    ensures
        blend(existing, channel, 255) == channel,
{
}

/// Every byte of pixel `(x, y)` lies inside the buffer.
proof fn lemma_pixel_in_buffer(width: int, height: int, stride: int, x: int, y: int)
    requires
        width > 0,
        stride % width == 0,
        stride / width >= 4,
        0 <= x < width,
        0 <= y < height,
    ensures
        stride * y + (stride / width) * x + 4 <= stride * height,
        stride * y >= 0,
        (stride / width) * x >= 0,
{
    let ps = stride / width;
    assert(stride == ps * width) by {
        vstd::arithmetic::div_mod::lemma_fundamental_div_mod(stride, width);
    }
    assert(ps * x + ps <= ps * width) by (nonlinear_arith)
        requires x < width, ps >= 0;
    assert(stride * y + stride <= stride * height) by (nonlinear_arith)
        requires y < height, stride >= 0, y >= 0;
    assert(ps * x >= 0) by (nonlinear_arith)
        requires x >= 0, ps >= 0;
    assert(stride * y >= 0) by (nonlinear_arith)
        requires y >= 0, stride >= 0;
}

} // verus!
