use vstd::prelude::*;

use crate::point::Point;

verus! {

/// Errors of the display surface.
#[derive(Debug, Clone, Copy, PartialEq, Eq, Structural)]
pub enum Error {
    ResizeError,
}

/// What a line drawn for inspection stands for.
#[derive(Debug, Clone, Copy, PartialEq, Eq, Structural)]
pub enum LineType {
    Path,
    Box,
    Graph,
}

impl LineType {
    /// The RGBA colour of lines of this kind.
    pub fn colour(&self) -> (r: [u8; 4])
        ensures
            r@ == match *self {
                LineType::Path => seq![10u8, 240u8, 10u8, 255u8],
                LineType::Box => seq![10u8, 10u8, 240u8, 255u8],
                LineType::Graph => seq![255u8, 255u8, 255u8, 255u8],
            },
    {
        let r = match self {
            LineType::Path => [10, 240, 10, 255],
            LineType::Box => [10, 10, 240, 255],
            LineType::Graph => [255, 255, 255, 255],
        };
        assert(r@ =~= match *self {
            LineType::Path => seq![10u8, 240u8, 10u8, 255u8],
            LineType::Box => seq![10u8, 10u8, 240u8, 255u8],
            LineType::Graph => seq![255u8, 255u8, 255u8, 255u8],
        });
        r
    }
}

/// A width and a height in pixels.
#[derive(Debug, Clone, Copy, PartialEq, Eq, Structural, Default)]
pub struct Rect {
    pub w: usize,
    pub h: usize,
}

pub fn rect(w: usize, h: usize) -> (r: Rect)
    ensures
        r.w == w,
        r.h == h,
{
    Rect { w, h }
}

impl Rect {
    pub fn new(w: usize, h: usize) -> (r: Rect)
        ensures
            r.w == w,
            r.h == h,
    {
        Rect { w, h }
    }

    pub fn wh(&self) -> (r: (usize, usize))
        ensures
            r == (self.w, self.h),
    {
        (self.w, self.h)
    }
}

/// `p` lies in the rectangle of size `area` whose top left corner is
/// `anchor`, edges included.
pub open spec fn point_in_spec(anchor: Point, area: Rect, p: Point) -> bool {
    anchor.x <= p.x <= anchor.x + area.w && anchor.y <= p.y <= anchor.y + area.h
}

pub fn point_in(anchor: Point, area: Rect, p: Point) -> (r: bool)
    ensures
        r == point_in_spec(anchor, area, p),
{
    p.x as i128 >= anchor.x as i128 && p.x as i128 <= anchor.x as i128 + area.w as i128 && p.y as i128
        >= anchor.y as i128 && p.y as i128 <= anchor.y as i128 + area.h as i128
}

/// One channel of `src` laid over `dest` with source alpha `a`, all in
/// 0..=255: `(s * a + d * (255 - a)) / 255`, rounded down.
pub open spec fn blend(s: int, d: int, a: int) -> int {
    (s * a + d * (255 - a)) / 255
}

/// Lays the RGBA pixel `src` over `dest`: each colour channel is blended
/// by the source alpha, and the alpha becomes `a + da * (255 - a) / 255`.
pub fn composit_pixel(dest: &mut [u8; 4], src: &[u8; 4])
    ensures
        forall|c: int|
            0 <= c < 3 ==> final(dest)@[c] == blend(
                src@[c] as int,
                old(dest)@[c] as int,
                src@[3] as int,
            ),
        final(dest)@[3] == blend(255, old(dest)@[3] as int, src@[3] as int),
{
    let a = src[3] as u32;
    let mut c: usize = 0;
    while c < 3
        invariant
            c <= 3,
            a == src@[3],
            forall|j: int|
                0 <= j < c ==> dest@[j] == blend(src@[j] as int, old(dest)@[j] as int, a as int),
            forall|j: int| c <= j < 4 ==> dest@[j] == old(dest)@[j],
        decreases 3 - c,
    {
        let s = src[c] as u32;
        let d = dest[c] as u32;
        let x = mix(s, d, a);
        dest[c] = x;
        c += 1;
    }
    let d = dest[3] as u32;
    let x = mix(255, d, a);
    dest[3] = x;
}

fn mix(s: u32, d: u32, a: u32) -> (r: u8)
    requires
        s <= 255,
        d <= 255,
        a <= 255,
    ensures
        r == blend(s as int, d as int, a as int),
{
    assert(s * a + d * (255 - a) <= 255 * 255) by (nonlinear_arith)
        requires
            s <= 255,
            d <= 255,
            a <= 255,
    ;
    assert(0 <= s * a && 0 <= d * (255 - a)) by (nonlinear_arith)
        requires
            a <= 255,
    ;
    let v = (s * a + d * (255 - a)) / 255;
    v as u8
}

/// An RGBA image: four bytes per pixel, row after row.
#[derive(Debug, Clone, PartialEq, Eq, Default)]
pub struct Bitmap {
    pub data: Vec<u8>,
    pub size: Rect,
}

impl Bitmap {
    pub fn new(buf: Vec<u8>, size: Rect) -> (r: Self)
        ensures
            r.data@ == buf@,
            r.size == size,
    {
        Bitmap { data: buf, size }
    }

    pub fn cols(&self) -> (r: usize)
        ensures
            r == self.size.w,
    {
        let (w, _) = self.size.wh();
        w
    }

    pub fn rows(&self) -> (r: usize)
        ensures
            r == self.size.h,
    {
        let (_, h) = self.size.wh();
        h
    }

    /// The bytes of the first `len` pixels of row `rownum`.
    pub fn row_partial(&self, rownum: usize, len: usize) -> (r: Vec<u8>)
        requires
            rownum * self.size.w * 4 + len * 4 <= self.data@.len(),
        ensures
            r@ == self.data@.subrange(
                rownum * self.size.w * 4,
                rownum * self.size.w * 4 + len * 4,
            ),
    {
        let w = self.cols();
        let n = self.data.len();
        proof {
            assert(0 <= rownum * w <= rownum * w * 4) by (nonlinear_arith);
            assert(0 <= len * 4);
        }
        let a = rownum * w * 4;
        let b = a + len * 4;
        let mut r: Vec<u8> = Vec::new();
        let mut i: usize = a;
        while i < b
            invariant
                a <= i <= b,
                b <= self.data@.len(),
                r@ == self.data@.subrange(a as int, i as int),
            decreases b - i,
        {
            r.push(self.data[i]);
            i += 1;
            assert(r@ =~= self.data@.subrange(a as int, i as int));
        }
        r
    }

    pub fn data(&self) -> (r: &[u8])
        ensures
            r@ == self.data@,
    {
        self.data.as_slice()
    }
}

/// The frame index after one of `count` frames wraps round to the first.
pub open spec fn next_index_of(current: int, count: int) -> int {
    if current == count - 1 {
        0
    } else {
        current + 1
    }
}

/// Advances an animation by `dt`: when the time since the last change of
/// frame reaches the current frame's `interval`, the next frame is shown
/// and the interval is taken off the time. Returns the frame index and the
/// time since the last change.
pub fn advance_frame(current: usize, count: usize, since_change: u64, dt: u64, interval: u64) -> (r: (
    usize,
    u64,
))
    requires
        current < count,
        since_change + dt <= u64::MAX,
    ensures
        since_change + dt >= interval ==> r == (
            next_index_of(current as int, count as int) as usize,
            (since_change + dt - interval) as u64,
        ),
        since_change + dt < interval ==> r == (current, (since_change + dt) as u64),
{
    let t = since_change + dt;
    if t >= interval {
        let next = if current == count - 1 {
            0
        } else {
            current + 1
        };
        (next, t - interval)
    } else {
        (current, t)
    }
}

/// An image of one frame.
#[derive(Debug, Clone, PartialEq, Eq, Default)]
pub struct StaticImage {
    pub data: Bitmap,
}

impl StaticImage {
    pub fn new(data: Bitmap) -> (r: Self)
        ensures
            r.data == data,
    {
        StaticImage { data }
    }

    pub fn data(&self) -> (r: &Bitmap)
        ensures
            *r == self.data,
    {
        &self.data
    }
}

/// A strip of glyphs side by side, `height` rows of RGBA pixels; each glyph
/// is `width` pixels wide.
#[derive(Debug, Clone, PartialEq, Eq, Default)]
pub struct TextObject {
    pub buffer: Vec<u8>,
    pub width: usize,
    pub height: usize,
    pub glyphs: usize,
}

/// The first `y` rows of a strip of `g` glyphs with one more glyph added:
/// each row is the old row followed by the glyph's row. A glyph row holds
/// `row` bytes.
pub open spec fn strip_rows(old: Seq<u8>, glyph: Seq<u8>, g: int, row: int, y: nat) -> Seq<u8>
    decreases y,
{
    if y == 0 {
        seq![]
    } else {
        let k = y - 1;
        strip_rows(old, glyph, g, row, (y - 1) as nat) + old.subrange(k * (g * row), (k + 1) * (
        g * row)) + glyph.subrange(k * row, (k + 1) * row)
    }
}

/// Appends the bytes `src[lo..hi]` to `r`.
fn push_range(r: &mut Vec<u8>, src: &Vec<u8>, lo: usize, hi: usize)
    requires
        lo <= hi <= src@.len(),
    ensures
        final(r)@ == old(r)@ + src@.subrange(lo as int, hi as int),
{
    let mut i: usize = lo;
    while i < hi
        invariant
            lo <= i <= hi,
            hi <= src@.len(),
            r@ == old(r)@ + src@.subrange(lo as int, i as int),
        decreases hi - i,
    {
        r.push(src[i]);
        i += 1;
        assert(r@ =~= old(r)@ + src@.subrange(lo as int, i as int));
    }
}

impl TextObject {
    /// The buffer holds `height` rows of `glyphs` glyphs.
    pub open spec fn wf(&self) -> bool {
        self.buffer@.len() == self.height * (self.glyphs * (self.width * 4))
    }

    pub fn new(w: usize, h: usize) -> (r: Self)
        ensures
            r.buffer@.len() == 0,
            r.width == w,
            r.height == h,
            r.glyphs == 0,
            r.wf(),
    {
        assert(h * (0 * (w * 4)) == 0) by (nonlinear_arith);
        TextObject { buffer: Vec::new(), width: w, height: h, glyphs: 0 }
    }

    /// Appends the glyph `buf`, `height` rows of `width` pixels, at the
    /// right end of the strip.
    pub fn add_glyph(&mut self, buf: &Vec<u8>)
        requires
            old(self).wf(),
            old(self).height * (old(self).width * 4) <= buf@.len(),
            old(self).buffer@.len() + buf@.len() <= usize::MAX,
            old(self).glyphs < usize::MAX,
        ensures
            final(self).width == old(self).width,
            final(self).height == old(self).height,
            final(self).glyphs == old(self).glyphs + 1,
            final(self).buffer@ == strip_rows(
                old(self).buffer@,
                buf@,
                old(self).glyphs as int,
                old(self).width * 4,
                old(self).height as nat,
            ),
            final(self).wf(),
    {
        let ghost g = self.glyphs as int;
        let ghost h = self.height as int;
        let ghost w4 = self.width * 4;
        proof {
            assert(0 <= h * w4 <= buf@.len());
            assert(w4 <= buf@.len() || h == 0) by (nonlinear_arith)
                requires
                    0 <= h * w4 <= buf@.len(),
                    h >= 0,
                    w4 >= 0,
            ;
        }
        let mut out: Vec<u8> = Vec::new();
        if self.height == 0 {
            self.glyphs = self.glyphs + 1;
            assert(out@ =~= strip_rows(self.buffer@, buf@, g, w4, 0));
            self.buffer = out;
            return;
        }
        let row = self.width * 4;
        proof {
            assert(g * row <= h * (g * row)) by (nonlinear_arith)
                requires
                    h >= 1,
                    g >= 0,
                    row >= 0,
            ;
        }
        let old_row = self.glyphs * row;
        let mut y: usize = 0;
        while y < self.height
            invariant
                y <= h,
                h >= 1,
                self.height == h,
                self.glyphs == g,
                self.width * 4 == w4,
                row == w4,
                old_row == g * row,
                self.buffer@.len() == h * old_row,
                h * row <= buf@.len(),
                self.buffer@.len() + buf@.len() <= usize::MAX,
                out@ == strip_rows(self.buffer@, buf@, g, row as int, y as nat),
                out@.len() == y * (old_row + row),
            decreases h - y,
        {
            proof {
                assert((y + 1) * old_row <= h * old_row && (y + 1) * row <= h * row) by (nonlinear_arith)
                    requires
                        y < h,
                        old_row >= 0,
                        row >= 0,
                ;
                assert((y + 1) * old_row == y * old_row + old_row && (y + 1) * row == y * row + row)
                    by (nonlinear_arith);
                assert((y + 1) * (old_row + row) == y * (old_row + row) + old_row + row) by (nonlinear_arith);
            }
            push_range(&mut out, &self.buffer, y * old_row, (y + 1) * old_row);
            push_range(&mut out, buf, y * row, (y + 1) * row);
            y += 1;
        }
        self.glyphs = self.glyphs + 1;
        self.buffer = out;
        proof {
            assert(h * (old_row + row) == h * ((g + 1) * row)) by (nonlinear_arith)
                requires
                    old_row == g * row,
            ;
        }
    }

    /// The strip as a bitmap.
    pub fn to_bmp(self) -> (r: Bitmap)
        requires
            self.width * self.glyphs <= usize::MAX,
        ensures
            r.data@ == self.buffer@,
            r.size == (Rect { w: (self.width * self.glyphs) as usize, h: self.height }),
    {
        Bitmap::new(self.buffer, Rect { w: self.width * self.glyphs, h: self.height })
    }
}

} // verus!
