//! Overlay of detection boxes on frame images.
use vstd::prelude::*;
use crate::digits::pow10;
use crate::fields::{lemma_pow10_bound, pow10_u64};
use crate::model::{Box, Decimal, Frame, FrameView, Object};

verus! {

/// An axis-aligned rectangle in whole pixels.
#[derive(Clone, Copy, Debug, PartialEq, Eq, Structural, Hash)]
pub struct Rect {
    pub x: i32,
    pub y: i32,
    pub width: i32,
    pub height: i32,
}

/// Why an overlay could not be drawn.
#[derive(Clone, Copy, Debug, PartialEq, Eq, Structural, Hash)]
pub enum RenderError {
    /// A detection's rectangle has no positive width or height.
    Degenerate { rect: Rect },
    /// The pixel buffer does not match the image's dimensions and channels.
    BadImage,
}

/// A raster image: `channels` bytes per pixel, rows top to bottom.
#[derive(Clone, Debug, PartialEq, Eq, Hash)]
pub struct Image {
    pub width: usize,
    pub height: usize,
    pub channels: usize,
    pub data: Vec<u8>,
}

impl Image {
    /// Grey or three-channel color, with a buffer of the right size.
    pub open spec fn wf(&self) -> bool {
        &&& self.channels == 1 || self.channels == 3
        &&& self.width > 0
        &&& self.data@.len() == self.width * self.height * self.channels
        &&& self.width * self.height * 3 <= usize::MAX
    }
}

/// The width of the stroke in pixels.
pub const THICKNESS: i32 = 2;

/// `n / d` rounded toward zero.
pub open spec fn trunc_div(n: int, d: int) -> int {
    if n >= 0 {
        n / d
    } else {
        -((-n) / d)
    }
}

/// The nearest `i32`.
pub open spec fn saturate(v: int) -> i32 {
    if v < i32::MIN {
        i32::MIN
    } else if v > i32::MAX {
        i32::MAX
    } else {
        v as i32
    }
}

/// A decimal cut to whole pixels.
pub open spec fn whole(d: Decimal) -> i32 {
    saturate(trunc_div(d.mantissa as int, pow10(d.scale as nat) as int))
}

/// `c - e / 2` cut to whole pixels.
pub open spec fn low_edge(c: Decimal, e: Decimal) -> i32 {
    let pc = pow10(c.scale as nat) as int;
    let pe = pow10(e.scale as nat) as int;
    saturate(trunc_div(2 * c.mantissa * pe - e.mantissa * pc, 2 * pc * pe))
}

/// The pixel rectangle of a center-and-extent box.
pub open spec fn rect_of(b: Box) -> Rect {
    Rect {
        x: low_edge(b.xc, b.w),
        y: low_edge(b.yc, b.h),
        width: whole(b.w),
        height: whole(b.h),
    }
}

pub open spec fn degenerate(r: Rect) -> bool {
    r.width <= 0 || r.height <= 0
}

fn trunc_i128(n: i128, d: i128) -> (r: i128)
    requires
        d > 0,
        n > i128::MIN,
    ensures
        r == trunc_div(n as int, d as int),
{
    if n >= 0 {
        n / d
    } else {
        -((-n) / d)
    }
}

fn saturate_i128(v: i128) -> (r: i32)
    ensures
        r == saturate(v as int),
{
    if v < i32::MIN as i128 {
        i32::MIN
    } else if v > i32::MAX as i128 {
        i32::MAX
    } else {
        v as i32
    }
}

fn whole_i32(d: Decimal) -> (r: i32)
    requires
        d.wf(),
    ensures
        r == whole(d),
{
    let p = pow10_u64(d.scale);
    proof {
        lemma_pow10_bound(d.scale as nat);
    }
    let q = trunc_i128(d.mantissa as i128, p as i128);
    saturate_i128(q)
}

fn low_edge_i32(c: Decimal, e: Decimal) -> (r: i32)
    requires
        c.wf(),
        e.wf(),
    ensures
        r == low_edge(c, e),
{
    let pc = pow10_u64(c.scale);
    let pe = pow10_u64(e.scale);
    proof {
        lemma_pow10_bound(c.scale as nat);
        lemma_pow10_bound(e.scale as nat);
    }
    let cm = c.mantissa as i128;
    let em = e.mantissa as i128;
    let pc = pc as i128;
    let pe = pe as i128;
    let bound: i128 = 10_000_000_000_000_000_000;
    let big: i128 = 10_000_000_000_000_000_000_000_000_000_000_000_000;
    assert(-bound <= cm <= bound);
    assert(-bound <= em <= bound);
    assert(-big <= cm * pe <= big) by (nonlinear_arith)
        requires
            -bound <= cm <= bound,
            1 <= pe <= 1_000_000_000_000_000_000,
            bound == 10_000_000_000_000_000_000i128,
            big == 10_000_000_000_000_000_000_000_000_000_000_000_000i128,
    ;
    assert(-big <= em * pc <= big) by (nonlinear_arith)
        requires
            -bound <= em <= bound,
            1 <= pc <= 1_000_000_000_000_000_000,
            bound == 10_000_000_000_000_000_000i128,
            big == 10_000_000_000_000_000_000_000_000_000_000_000_000i128,
    ;
    assert(1 <= pc * pe <= 1_000_000_000_000_000_000_000_000_000_000_000_000) by (nonlinear_arith)
        requires
            1 <= pc <= 1_000_000_000_000_000_000,
            1 <= pe <= 1_000_000_000_000_000_000,
    ;
    let num = 2 * (cm * pe) - em * pc;
    let den = 2 * (pc * pe);
    assert(2 * (cm * pe) == 2 * cm * pe) by (nonlinear_arith);
    assert(2 * (pc * pe) == 2 * pc * pe) by (nonlinear_arith);
    let q = trunc_i128(num, den);
    saturate_i128(q)
}

/// The pixel rectangle of a box: `x = xc - w/2`, `y = yc - h/2`, width `w` and
/// height `h`, each cut toward zero to whole pixels.
pub fn rectangle(b: &Box) -> (r: Rect)
    requires
        b.wf(),
    ensures
        r == rect_of(*b),
{
    Rect {
        x: low_edge_i32(b.xc, b.w),
        y: low_edge_i32(b.yc, b.h),
        width: whole_i32(b.w),
        height: whole_i32(b.h),
    }
}

/// Pixel `(px, py)` lies on the stroke of `r`: inside the rectangle from
/// `(x, y)` to `(x + width, y + height)`, within `THICKNESS` of its border.
pub open spec fn on_stroke(r: Rect, px: int, py: int) -> bool {
    &&& r.x <= px <= r.x + r.width
    &&& r.y <= py <= r.y + r.height
    &&& (px < r.x + THICKNESS || px > r.x + r.width - THICKNESS || py < r.y + THICKNESS || py > r.y
        + r.height - THICKNESS)
}

/// The overlay color in blue, green, red order: pure green.
pub open spec fn stroke_byte(channel: int) -> u8 {
    if channel == 1 {
        255
    } else {
        0
    }
}

/// Byte `j` of a three-channel image of this width belongs to a pixel on some stroke.
pub open spec fn covered(rects: Seq<Rect>, width: int, j: int) -> bool {
    exists|i: int| 0 <= i < rects.len() && on_stroke(#[trigger] rects[i], (j / 3) % width, (j / 3) / width)
}

/// A three-channel image with the strokes of `rects` drawn over it.
pub open spec fn painted(base: Seq<u8>, width: int, rects: Seq<Rect>) -> Seq<u8> {
    Seq::new(
        base.len(),
        |j: int|
            if covered(rects, width, j) {
                stroke_byte(j % 3)
            } else {
                base[j]
            },
    )
}

/// A grey image as three equal channels.
pub open spec fn gray_to_color(d: Seq<u8>) -> Seq<u8> {
    Seq::new(3 * d.len(), |j: int| d[j / 3])
}

/// The pixels of an image as three channels.
pub open spec fn normalized(img: Image) -> Seq<u8> {
    if img.channels == 1 {
        gray_to_color(img.data@)
    } else {
        img.data@
    }
}

/// The rectangles of a frame's detections, in order.
pub open spec fn frame_rects(f: FrameView) -> Seq<Rect> {
    f.objects.map_values(|o: Object| rect_of(o.bbox))
}

fn on_stroke_exec(r: Rect, px: usize, py: usize) -> (b: bool)
    ensures
        b == on_stroke(r, px as int, py as int),
{
    let px = px as i128;
    let py = py as i128;
    let x = r.x as i128;
    let y = r.y as i128;
    let w = r.width as i128;
    let h = r.height as i128;
    let t = THICKNESS as i128;
    x <= px && px <= x + w && y <= py && py <= y + h && (px < x + t || px > x + w - t || py < y + t
        || py > y + h - t)
}

/// Draws the stroke of `r` over a three-channel buffer of this width.
fn stroke(data: &mut Vec<u8>, width: usize, r: Rect)
    requires
        width > 0,
    ensures
        final(data)@ == Seq::new(
            old(data)@.len(),
            |j: int|
                if on_stroke(r, (j / 3) % (width as int), (j / 3) / (width as int)) {
                    stroke_byte(j % 3)
                } else {
                    old(data)@[j]
                },
        ),
{
    let ghost base = data@;
    let n = data.len();
    let mut j: usize = 0;
    while j < n
        invariant
            n == base.len(),
            width > 0,
            data@.len() == n,
            j <= n,
            forall|k: int|
                0 <= k < j ==> #[trigger] data@[k] == (if on_stroke(
                    r,
                    (k / 3) % (width as int),
                    (k / 3) / (width as int),
                ) {
                    stroke_byte(k % 3)
                } else {
                    base[k]
                }),
            forall|k: int| j <= k < n ==> #[trigger] data@[k] == base[k],
        decreases n - j,
    {
        let p = j / 3;
        if on_stroke_exec(r, p % width, p / width) {
            let c = j % 3;
            let v: u8 = if c == 1 {
                255
            } else {
                0
            };
            data.set(j, v);
        }
        j = j + 1;
    }
    assert(data@ =~= Seq::new(
        base.len(),
        |k: int|
            if on_stroke(r, (k / 3) % (width as int), (k / 3) / (width as int)) {
                stroke_byte(k % 3)
            } else {
                base[k]
            },
    ));
}

/// Checks an image's buffer against its dimensions.
pub fn check_image(img: &Image) -> (ok: bool)
    ensures
        ok == img.wf(),
{
    if img.channels != 1 && img.channels != 3 {
        return false;
    }
    if img.width == 0 {
        return false;
    }
    let w = img.width as u128;
    let h = img.height as u128;
    assert(w * h <= 0xffff_ffff_ffff_ffffu128 * 0xffff_ffff_ffff_ffffu128) by (nonlinear_arith)
        requires
            w <= 0xffff_ffff_ffff_ffffu128,
            h <= 0xffff_ffff_ffff_ffffu128,
    ;
    let wh = w * h;
    if wh > usize::MAX as u128 / 3 {
        return false;
    }
    let size = wh * (img.channels as u128);
    assert(wh * (img.channels as u128) == img.width * img.height * img.channels);
    size == img.data.len() as u128
}

/// Upconverts a grey buffer to three equal channels.
fn gray_to_color_exec(d: &Vec<u8>) -> (r: Vec<u8>)
    requires
        3 * d@.len() <= usize::MAX,
    ensures
        r@ == gray_to_color(d@),
{
    let n = d.len() * 3;
    let mut r: Vec<u8> = Vec::new();
    let mut j: usize = 0;
    while j < n
        invariant
            n == 3 * d@.len(),
            j <= n,
            r@.len() == j,
            forall|k: int| 0 <= k < j ==> #[trigger] r@[k] == d@[k / 3],
        decreases n - j,
    {
        r.push(d[j / 3]);
        j = j + 1;
    }
    assert(r@ =~= gray_to_color(d@));
    r
}

/// Draws a frame's detections over its image; of the frame only the boxes are
/// read, and they must be well formed. The image must match its
/// dimensions, and every detection must have a rectangle of positive width and
/// height; otherwise the image is left as it was. On success the image is three
/// channels, its pixels those of the source upconverted, with each detection's
/// rectangle stroked in green.
pub fn render(frame: &Frame, image: &mut Image) -> (r: Result<(), RenderError>)
    requires
        forall|i: int| 0 <= i < frame@.objects.len() ==> (#[trigger] frame@.objects[i]).wf(),
    ensures
        !old(image).wf() ==> r == Err::<(), RenderError>(RenderError::BadImage),
        old(image).wf() && (exists|i: int|
            0 <= i < frame_rects(frame@).len() && degenerate(#[trigger] frame_rects(frame@)[i]))
            ==> (r matches Err(RenderError::Degenerate { rect }) && degenerate(rect)
            && frame_rects(frame@).contains(rect)),
        r is Err ==> *final(image) == *old(image),
        old(image).wf() && (forall|i: int|
            0 <= i < frame_rects(frame@).len() ==> !degenerate(#[trigger] frame_rects(frame@)[i]))
            ==> (r is Ok && final(image).channels == 3 && final(image).width == old(image).width
            && final(image).height == old(image).height && final(image).data@ == painted(
            normalized(*old(image)),
            old(image).width as int,
            frame_rects(frame@),
        )),
{
    if !check_image(image) {
        return Err(RenderError::BadImage);
    }
    let objects = &frame.object_list.objects;
    let ghost rects = frame_rects(frame@);
    let mut list: Vec<Rect> = Vec::new();
    let mut i: usize = 0;
    while i < objects.len()
        invariant
            i <= objects@.len(),
            old(image).wf(),
            *image == *old(image),
            objects@ == frame@.objects,
            rects == frame_rects(frame@),
            forall|k: int| 0 <= k < frame@.objects.len() ==> (#[trigger] frame@.objects[k]).wf(),
            list@ == rects.take(i as int),
            forall|k: int| 0 <= k < i ==> !degenerate(#[trigger] rects[k]),
        decreases objects@.len() - i,
    {
        assert(frame@.objects[i as int].wf());
        let rect = rectangle(&objects[i].bbox);
        if rect.width <= 0 || rect.height <= 0 {
            proof {
                assert(rects[i as int] == rect);
            }
            return Err(RenderError::Degenerate { rect });
        }
        list.push(rect);
        i = i + 1;
        assert(list@ =~= rects.take(i as int));
    }
    assert(list@ =~= rects);
    let width = image.width;
    let ghost base = normalized(*image);
    let mut data = if image.channels == 1 {
        assert(image.data@.len() == image.width * image.height);
        gray_to_color_exec(&image.data)
    } else {
        let mut copy: Vec<u8> = Vec::new();
        let mut k: usize = 0;
        while k < image.data.len()
            invariant
                k <= image.data@.len(),
                copy@ == image.data@.subrange(0, k as int),
            decreases image.data@.len() - k,
        {
            copy.push(image.data[k]);
            k = k + 1;
            assert(copy@ =~= image.data@.subrange(0, k as int));
        }
        assert(copy@ =~= image.data@);
        copy
    };
    assert(data@ == base);
    let mut i: usize = 0;
    while i < list.len()
        invariant
            width > 0,
            i <= list@.len(),
            list@ == rects,
            data@ == painted(base, width as int, rects.take(i as int)),
        decreases list@.len() - i,
    {
        let ghost before = data@;
        stroke(&mut data, width, list[i]);
        proof {
            assert forall|j: int| 0 <= j < data@.len() implies #[trigger] data@[j] == painted(
                base,
                width as int,
                rects.take(i + 1),
            )[j] by {
                let px = (j / 3) % (width as int);
                let py = (j / 3) / (width as int);
                if on_stroke(rects[i as int], px, py) {
                    assert(rects.take(i + 1)[i as int] == rects[i as int]);
                } else {
                    if covered(rects.take(i + 1), width as int, j) {
                        let w = choose|w: int|
                            0 <= w < rects.take(i + 1).len() && on_stroke(
                                #[trigger] rects.take(i + 1)[w],
                                px,
                                py,
                            );
                        assert(rects.take(i as int)[w] == rects[w]);
                    }
                    if covered(rects.take(i as int), width as int, j) {
                        let w = choose|w: int|
                            0 <= w < rects.take(i as int).len() && on_stroke(
                                #[trigger] rects.take(i as int)[w],
                                px,
                                py,
                            );
                        assert(rects.take(i + 1)[w] == rects[w]);
                    }
                }
            }
        }
        i = i + 1;
        assert(data@ =~= painted(base, width as int, rects.take(i as int)));
    }
    assert(rects.take(i as int) =~= rects);
    image.channels = 3;
    image.data = data;
    Ok(())
}

} // verus!
