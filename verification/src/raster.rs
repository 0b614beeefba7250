//! Pixel buffers, and the blending of rendered text onto video frames.

use crate::arith::{
    law_nearest_whole_is_nearest, law_product_is_near, law_representable_is_exact,
    law_whole_is_exact, lemma_rounds_below_power, lemma_zero_rounds, nearest_whole, of_whole,
    product, size,
};
use crate::double::{lemma_magnitudes_ordered, unit, Double, ONE_BITS};
use crate::rounding::{lemma_magnitude_monotone, lemma_magnitude_scales, nearest_magnitude};
use vstd::arithmetic::div_mod::*;
use vstd::arithmetic::power2::*;
use vstd::prelude::*;

verus! {

/// An opaque colour: red, green, blue.
#[derive(Clone, Copy, Debug, PartialEq, Eq)]
pub struct Rgb(pub [u8; 3]);

/// A colour with an alpha channel: red, green, blue, alpha.
#[derive(Clone, Copy, Debug, PartialEq, Eq)]
pub struct Rgba(pub [u8; 4]);

/// A video frame: rows of three-byte pixels, top row first.
#[derive(Clone, Debug, PartialEq, Eq)]
pub struct RgbImage {
    pub width: u32,
    pub height: u32,
    pub data: Vec<u8>,
}

/// A sprite with transparency: rows of four-byte pixels, top row first.
#[derive(Clone, Debug, PartialEq, Eq)]
pub struct RgbaImage {
    pub width: u32,
    pub height: u32,
    pub data: Vec<u8>,
}

/// What a frame shows: its dimensions and its bytes.
#[verifier::ext_equal]
pub struct Frame {
    pub width: int,
    pub height: int,
    pub data: Seq<u8>,
}

impl Frame {
    pub open spec fn wf(self) -> bool {
        &&& self.width >= 0
        &&& self.height >= 0
        &&& self.data.len() == self.width * self.height * 3
    }

    /// The row that holds byte `i`.
    pub open spec fn row(self, i: int) -> int {
        (i / 3) / self.width
    }

    /// The column that holds byte `i`.
    pub open spec fn column(self, i: int) -> int {
        (i / 3) % self.width
    }
}

impl View for RgbImage {
    type V = Frame;

    open spec fn view(&self) -> Frame {
        Frame { width: self.width as int, height: self.height as int, data: self.data@ }
    }
}

impl RgbImage {
    pub open spec fn wf(&self) -> bool {
        self@.wf()
    }

    /// A black frame.
    pub fn new(width: u32, height: u32) -> (image: RgbImage)
        requires
            width * height * 3 <= usize::MAX,
        ensures
            image.wf(),
            image.width == width,
            image.height == height,
            forall|i: int| 0 <= i < image.data@.len() ==> image.data@[i] == 0,
    {
        let len: usize = byte_len(width, height, 3);
        RgbImage { width, height, data: vec![0u8; len] }
    }

    /// The width and the height.
    pub fn dimensions(&self) -> (d: (u32, u32))
        ensures
            d == (self.width, self.height),
    {
        (self.width, self.height)
    }

    /// The pixel in column `x` of row `y`.
    pub fn get_pixel(&self, x: u32, y: u32) -> (p: Rgb)
        requires
            self.wf(),
            x < self.width,
            y < self.height,
        ensures
            forall|c: int|
                0 <= c < 3 ==> #[trigger] p.0@[c] == self.data@[(y * self.width + x) * 3 + c],
    {
        let at: usize = byte_at(self.width, self.height, x, y, 3, self.data.len());
        Rgb([self.data[at], self.data[at + 1], self.data[at + 2]])
    }

    /// Overwrites the pixel in column `x` of row `y`.
    pub fn put_pixel(&mut self, x: u32, y: u32, p: Rgb)
        requires
            old(self).wf(),
            x < old(self).width,
            y < old(self).height,
        ensures
            final(self).wf(),
            final(self).width == old(self).width,
            final(self).height == old(self).height,
            final(self).data@ == old(self).data@.update(
                (y * old(self).width + x) * 3,
                p.0@[0],
            ).update((y * old(self).width + x) * 3 + 1, p.0@[1]).update(
                (y * old(self).width + x) * 3 + 2,
                p.0@[2],
            ),
    {
        let at: usize = byte_at(self.width, self.height, x, y, 3, self.data.len());
        self.data.set(at, p.0[0]);
        self.data.set(at + 1, p.0[1]);
        self.data.set(at + 2, p.0[2]);
    }

    /// Paints every byte with `value`.
    pub fn fill(&mut self, value: u8)
        requires
            old(self).wf(),
        ensures
            final(self).wf(),
            final(self).width == old(self).width,
            final(self).height == old(self).height,
            forall|i: int| 0 <= i < final(self).data@.len() ==> final(self).data@[i] == value,
    {
        let len: usize = self.data.len();
        self.data = vec![value; len];
    }
}

impl RgbaImage {
    pub open spec fn wf(&self) -> bool {
        self.data@.len() == self.width * self.height * 4
    }

    /// The byte of channel `c` of the pixel in column `x` of row `y`.
    pub open spec fn channel(&self, x: int, y: int, c: int) -> u8 {
        self.data@[(y * self.width + x) * 4 + c]
    }

    /// Row `y` has a pixel that is not fully transparent.
    pub open spec fn row_has_ink(&self, y: int) -> bool {
        exists|x: int| 0 <= x < self.width && #[trigger] self.channel(x, y, 3) > 0
    }

    /// A fully transparent sprite.
    pub fn new(width: u32, height: u32) -> (image: RgbaImage)
        requires
            width * height * 4 <= usize::MAX,
        ensures
            image.wf(),
            image.width == width,
            image.height == height,
            forall|i: int| 0 <= i < image.data@.len() ==> image.data@[i] == 0,
    {
        let len: usize = byte_len(width, height, 4);
        RgbaImage { width, height, data: vec![0u8; len] }
    }

    /// The width and the height.
    pub fn dimensions(&self) -> (d: (u32, u32))
        ensures
            d == (self.width, self.height),
    {
        (self.width, self.height)
    }

    /// Overwrites the pixel in column `x` of row `y`.
    pub fn put_pixel(&mut self, x: u32, y: u32, p: Rgba)
        requires
            old(self).wf(),
            x < old(self).width,
            y < old(self).height,
        ensures
            final(self).wf(),
            final(self).width == old(self).width,
            final(self).height == old(self).height,
            final(self).data@ == put_rgba(
                old(self).data@,
                (y * old(self).width + x) * 4,
                p.0@,
            ),
    {
        let at: usize = byte_at(self.width, self.height, x, y, 4, self.data.len());
        self.data.set(at, p.0[0]);
        self.data.set(at + 1, p.0[1]);
        self.data.set(at + 2, p.0[2]);
        self.data.set(at + 3, p.0[3]);
    }
}

/// `data` with the four bytes from `at` on replaced by `p`.
pub open spec fn put_rgba(data: Seq<u8>, at: int, p: Seq<u8>) -> Seq<u8> {
    data.update(at, p[0]).update(at + 1, p[1]).update(at + 2, p[2]).update(at + 3, p[3])
}

/// The number of bytes of `width` times `height` pixels of `depth` bytes.
fn byte_len(width: u32, height: u32, depth: usize) -> (len: usize)
    requires
        width * height * depth <= usize::MAX,
        depth == 3 || depth == 4,
    ensures
        len == width * height * depth,
{
    let area: u64 = width as u64 * height as u64;
    assert(area <= usize::MAX);
    area as usize * depth
}

/// The first byte of the pixel in column `x` of row `y` of a buffer of `len` bytes.
fn byte_at(width: u32, height: u32, x: u32, y: u32, depth: usize, len: usize) -> (at: usize)
    requires
        x < width,
        y < height,
        width * height * depth == len,
        depth == 3 || depth == 4,
    ensures
        at == (y * width + x) * depth,
        at + depth <= len,
{
    assert((y + 1) * width <= width * height) by (nonlinear_arith)
        requires
            y < height,
    ;
    assert((y + 1) * width == y * width + width) by (nonlinear_arith);
    assert(y * width >= 0) by (nonlinear_arith);
    (y as usize * width as usize + x as usize) * depth
}

/// How strongly a sprite pixel of opacity `alpha` covers, in 256ths, when the whole sprite is drawn
/// at `o256` 256ths.
pub open spec fn cover(alpha: u8, o256: int) -> int {
    alpha * o256 / 256
}

/// The byte `under` with `over` laid on it at `ea` 256ths.
pub open spec fn blend(under: u8, over: u8, ea: int) -> u8 {
    ((over * ea + under * (256 - ea)) / 256) as u8
}

/// Byte `i` of `frame` once `sprite` is drawn with its top left corner at column `x` of row `y`.
pub open spec fn blit_byte(
    frame: Frame,
    sprite: RgbaImage,
    x: int,
    y: int,
    o256: int,
    i: int,
) -> u8 {
    let sx = frame.column(i) - x;
    let sy = frame.row(i) - y;
    if 0 <= sx < sprite.width && 0 <= sy < sprite.height {
        blend(
            frame.data[i],
            sprite.channel(sx, sy, i % 3),
            cover(sprite.channel(sx, sy, 3), o256),
        )
    } else {
        frame.data[i]
    }
}

/// `frame` once `sprite` is drawn with its top left corner at column `x` of row `y`.
pub open spec fn blitted(frame: Frame, sprite: RgbaImage, x: int, y: int, o256: int) -> Frame {
    Frame {
        data: Seq::new(
            frame.data.len(),
            |i: int| blit_byte(frame, sprite, x, y, o256, i),
        ),
        ..frame
    }
}

/// `frame` once `sprite` is laid on it with its top left corner at column `x` of row `y`. Columns and
/// rows are counted in 32 bits: a sprite that ends beyond them does not show.
pub open spec fn laid_on(frame: Frame, sprite: RgbaImage, x: int, y: int, o256: int) -> Frame {
    if x + sprite.width <= i32::MAX && y + sprite.height <= i32::MAX {
        blitted(frame, sprite, x, y, o256)
    } else {
        frame
    }
}

/// Covering nothing changes nothing; covering fully at most replaces.
proof fn lemma_blend(under: u8, over: u8, alpha: u8, o256: int)
    requires
        0 <= o256 <= 256,
    ensures
        0 <= cover(alpha, o256) <= 255,
        0 <= (over * cover(alpha, o256) + under * (256 - cover(alpha, o256))) / 256 <= 255,
        over * cover(alpha, o256) + under * (256 - cover(alpha, o256)) <= 255 * 256,
        alpha == 0 || o256 == 0 ==> blend(under, over, cover(alpha, o256)) == under,
{
    let ea = cover(alpha, o256);
    assert(0 <= alpha * o256 <= 255 * 256) by (nonlinear_arith)
        requires
            0 <= o256 <= 256,
            0 <= alpha <= 255,
    ;
    assert(0 <= over * ea + under * (256 - ea) <= 255 * 256) by (nonlinear_arith)
        requires
            0 <= ea <= 255,
            0 <= over <= 255,
            0 <= under <= 255,
    ;
    if alpha == 0 || o256 == 0 {
        assert(alpha * o256 == 0) by (nonlinear_arith)
            requires
                alpha == 0 || o256 == 0,
        ;
        assert(over * ea + under * (256 - ea) == under * 256) by (nonlinear_arith)
            requires
                ea == 0,
        ;
    }
}

/// The bytes of the pixel in column `px` of row `py` are the three from `(py * width + px) * 3` on.
proof fn lemma_pixel_bytes(frame: Frame, px: int, py: int, i: int)
    requires
        0 <= px < frame.width,
        0 <= py,
        0 <= i,
    ensures
        (frame.row(i) == py && frame.column(i) == px) <==> (py * frame.width + px) * 3 <= i < (py
            * frame.width + px) * 3 + 3,
        (py * frame.width + px) * 3 <= i < (py * frame.width + px) * 3 + 3 ==> i % 3 == i - (py
            * frame.width + px) * 3,
{
    let w = frame.width;
    let q = i / 3;
    vstd::arithmetic::div_mod::lemma_fundamental_div_mod(q, w);
    assert(w * (q / w) == (q / w) * w) by (nonlinear_arith);
    if py * w + px == q {
        vstd::arithmetic::div_mod::lemma_fundamental_div_mod_converse(q, w, py, px);
    }
}

/// Every byte of a frame belongs to a row and a column of it.
proof fn lemma_byte_positions(frame: Frame)
    requires
        frame.wf(),
    ensures
        forall|i: int|
            #![trigger frame.row(i)]
            #![trigger frame.column(i)]
            0 <= i < frame.data.len() ==> 0 <= frame.row(i) < frame.height && 0 <= frame.column(i)
                < frame.width,
{
    assert forall|i: int|
        #![trigger frame.row(i)]
        #![trigger frame.column(i)]
        0 <= i < frame.data.len() implies 0 <= frame.row(i) < frame.height && 0 <= frame.column(i)
        < frame.width by {
        let w = frame.width;
        let h = frame.height;
        let q = i / 3;
        assert(w * h > 0);
        assert(w > 0 && h > 0) by (nonlinear_arith)
            requires
                w * h > 0,
                w >= 0,
                h >= 0,
        ;
        assert(q < w * h);
        vstd::arithmetic::div_mod::lemma_fundamental_div_mod(q, w);
        assert(0 <= q / w < h) by (nonlinear_arith)
            requires
                q == w * (q / w) + q % w,
                0 <= q % w < w,
                0 <= q < w * h,
        ;
    }
}

/// Lays the sprite pixel at `si` on the frame pixel at `fi`.
fn blend_pixel(data: &mut Vec<u8>, fi: usize, sprite: &RgbaImage, si: usize, o256: u32)
    requires
        fi + 3 <= old(data)@.len(),
        si + 4 <= sprite.data@.len(),
        fi + 3 <= usize::MAX,
        si + 4 <= usize::MAX,
        o256 <= 256,
    ensures
        final(data)@.len() == old(data)@.len(),
        forall|i: int|
            0 <= i < old(data)@.len() ==> #[trigger] final(data)@[i] == if fi <= i < fi + 3 {
                blend(
                    old(data)@[i],
                    sprite.data@[si + (i - fi)],
                    cover(sprite.data@[si + 3], o256 as int),
                )
            } else {
                old(data)@[i]
            },
{
    let sa: u32 = sprite.data[si + 3] as u32;
    proof {
        lemma_blend(data@[fi as int], sprite.data@[si as int], sa as u8, o256 as int);
        lemma_blend(data@[fi + 1], sprite.data@[si + 1], sa as u8, o256 as int);
        lemma_blend(data@[fi + 2], sprite.data@[si + 2], sa as u8, o256 as int);
        assert(sa * o256 <= 255 * 256) by (nonlinear_arith)
            requires
                sa <= 255,
                o256 <= 256,
        ;
    }
    if sa == 0 {
        return;
    }
    let ea: u32 = sa * o256 / 256;
    let inv_ea: u32 = 256 - ea;
    let r: u8 = mix(sprite.data[si], data[fi], ea, inv_ea);
    let g: u8 = mix(sprite.data[si + 1], data[fi + 1], ea, inv_ea);
    let b: u8 = mix(sprite.data[si + 2], data[fi + 2], ea, inv_ea);
    data.set(fi, r);
    data.set(fi + 1, g);
    data.set(fi + 2, b);
}

/// The weighted mean of two bytes.
fn mix(over: u8, under: u8, ea: u32, inv_ea: u32) -> (m: u8)
    requires
        ea <= 256,
        inv_ea == 256 - ea,
    ensures
        m == blend(under, over, ea as int),
{
    assert(0 <= over * ea + under * inv_ea <= 255 * 256 && over * ea <= 255 * 256 && under * inv_ea
        <= 255 * 256) by (nonlinear_arith)
        requires
            0 <= over <= 255,
            0 <= under <= 255,
            ea <= 256,
            inv_ea == 256 - ea,
    ;
    ((over as u32 * ea + under as u32 * inv_ea) / 256) as u8
}

/// Draws `sprite` onto `frame` with its top left corner at column `x` of row `y`, at `o256` 256ths
/// of its own opacity. What lies outside the frame is cut off.
pub fn blit(frame: &mut RgbImage, sprite: &RgbaImage, x: i32, y: i32, o256: u32)
    requires
        old(frame).wf(),
        sprite.wf(),
        o256 <= 256,
    ensures
        final(frame)@ == laid_on(old(frame)@, *sprite, x as int, y as int, o256 as int),
        final(frame).wf(),
{
    if x as i64 + sprite.width as i64 > 0x7fff_ffff || y as i64 + sprite.height as i64
        > 0x7fff_ffff {
        return;
    }
    let ghost before = frame@;
    let sw: u32 = sprite.width;
    let sh: u32 = sprite.height;
    let fw: u32 = frame.width;
    let fh: u32 = frame.height;
    if o256 == 0 {
        proof {
            assert forall|i: int| 0 <= i < before.data.len() implies before.data[i]
                == #[trigger] blit_byte(before, *sprite, x as int, y as int, 0, i) by {
                let sx = before.column(i) - x;
                let sy = before.row(i) - y;
                lemma_blend(
                    before.data[i],
                    sprite.channel(sx, sy, i % 3),
                    sprite.channel(sx, sy, 3),
                    0,
                );
            }
            assert(before =~= blitted(before, *sprite, x as int, y as int, 0));
        }
        return;
    }
    let clip_x1: u32 = if x < 0 { 0 } else { x as u32 };
    let clip_y1: u32 = if y < 0 { 0 } else { y as u32 };
    let end_x: i64 = x as i64 + sw as i64;
    let end_y: i64 = y as i64 + sh as i64;
    let clip_x2: u32 = if end_x < 0 { 0 } else if end_x < fw as i64 { end_x as u32 } else { fw };
    let clip_y2: u32 = if end_y < 0 { 0 } else if end_y < fh as i64 { end_y as u32 } else { fh };
    let frame_len: usize = frame.data.len();
    let sprite_len: usize = sprite.data.len();
    let mut fy: u32 = clip_y1;
    proof {
        lemma_byte_positions(before);
    }
    while fy < clip_y2
        invariant
            before == old(frame)@,
            before.wf(),
            sprite.wf(),
            0 < o256 <= 256,
            sw == sprite.width,
            sh == sprite.height,
            fw == before.width,
            fh == before.height,
            frame.width == fw,
            frame.height == fh,
            frame_len == before.data.len(),
            sprite_len == sprite.data@.len(),
            frame.data@.len() == frame_len,
            clip_y1 == if y < 0 { 0 } else { y as int },
            clip_x1 == if x < 0 { 0 } else { x as int },
            clip_x2 <= fw,
            clip_y2 <= fh,
            clip_x1 < clip_x2 ==> clip_x2 <= x + sw,
            clip_y1 < clip_y2 ==> clip_y2 <= y + sh,
            clip_x2 < fw ==> clip_x2 >= x + sw,
            clip_y2 < fh ==> clip_y2 >= y + sh,
            clip_y1 <= fy,
            x + sw <= i32::MAX,
            y + sh <= i32::MAX,
            forall|i: int|
                0 <= i < frame_len ==> #[trigger] frame.data@[i] == if before.row(i) < fy {
                    blit_byte(before, *sprite, x as int, y as int, o256 as int, i)
                } else {
                    before.data[i]
                },
        decreases clip_y2 - fy,
    {
        let mut fx: u32 = clip_x1;
        proof {
            lemma_byte_positions(before);
        }
        while fx < clip_x2
            invariant
                before.wf(),
                sprite.wf(),
                0 < o256 <= 256,
                sw == sprite.width,
                sh == sprite.height,
                fw == before.width,
                fh == before.height,
                frame.width == fw,
                frame.height == fh,
                frame_len == before.data.len(),
                sprite_len == sprite.data@.len(),
                frame.data@.len() == frame_len,
                clip_x1 == if x < 0 { 0 } else { x as int },
                clip_x2 <= fw,
                clip_x1 < clip_x2 ==> clip_x2 <= x + sw,
                clip_x1 <= fx,
                x <= fx,
                0 <= fy - y < sh,
                fy < fh,
                x + sw <= i32::MAX,
                y + sh <= i32::MAX,
                forall|i: int|
                    0 <= i < frame_len ==> #[trigger] frame.data@[i] == if before.row(i) < fy || (
                    before.row(i) == fy && before.column(i) < fx) {
                        blit_byte(before, *sprite, x as int, y as int, o256 as int, i)
                    } else {
                        before.data[i]
                    },
            decreases clip_x2 - fx,
        {
            let sx: u32 = (fx as i64 - x as i64) as u32;
            let sy: u32 = (fy as i64 - y as i64) as u32;
            let si: usize = byte_at(sw, sh, sx, sy, 4, sprite_len);
            let fi: usize = byte_at(fw, fh, fx, fy, 3, frame_len);
            let ghost prior = frame.data@;
            blend_pixel(&mut frame.data, fi, sprite, si, o256);
            proof {
                assert forall|i: int| 0 <= i < frame_len implies #[trigger] frame.data@[i] == if (
                before.row(i) < fy || (before.row(i) == fy && before.column(i) < fx + 1)) {
                    blit_byte(before, *sprite, x as int, y as int, o256 as int, i)
                } else {
                    before.data[i]
                } by {
                    lemma_pixel_bytes(before, fx as int, fy as int, i);
                    assert(prior[i] == prior[i]);
                }
            }
            fx = fx + 1;
        }
        proof {
            lemma_byte_positions(before);
        }
        fy = fy + 1;
    }
    proof {
        lemma_byte_positions(before);
        assert(frame@ =~= blitted(before, *sprite, x as int, y as int, o256 as int));
    }
}

/// Whether row `y` has a pixel that is not fully transparent.
fn row_has_ink(sprite: &RgbaImage, y: u32) -> (found: bool)
    requires
        sprite.wf(),
        y < sprite.height,
    ensures
        found == sprite.row_has_ink(y as int),
{
    let len: usize = sprite.data.len();
    let mut x: u32 = 0;
    while x < sprite.width
        invariant
            sprite.wf(),
            y < sprite.height,
            len == sprite.data@.len(),
            x <= sprite.width,
            forall|k: int| 0 <= k < x ==> #[trigger] sprite.channel(k, y as int, 3) == 0,
        decreases sprite.width - x,
    {
        let at: usize = byte_at(sprite.width, sprite.height, x, y, 4, len);
        assert(sprite.channel(x as int, y as int, 3) == sprite.data@[at + 3]);
        if sprite.data[at + 3] > 0 {
            return true;
        }
        x = x + 1;
    }
    false
}

/// The first and the last row of `sprite` with a pixel that is not fully transparent, or `None`
/// when every pixel is.
pub fn sprite_ink_bounds(sprite: &RgbaImage) -> (bounds: Option<(u32, u32)>)
    requires
        sprite.wf(),
    ensures
        match bounds {
            Some((top, bottom)) => {
                &&& top <= bottom < sprite.height
                &&& sprite.row_has_ink(top as int)
                &&& sprite.row_has_ink(bottom as int)
                &&& forall|y: int|
                    0 <= y < sprite.height && #[trigger] sprite.row_has_ink(y) ==> top <= y
                        <= bottom
            },
            None => forall|y: int| 0 <= y < sprite.height ==> !#[trigger] sprite.row_has_ink(y),
        },
{
    let mut top: u32 = 0;
    while top < sprite.height && !row_has_ink(sprite, top)
        invariant
            sprite.wf(),
            top <= sprite.height,
            forall|y: int| 0 <= y < top ==> !#[trigger] sprite.row_has_ink(y),
        decreases sprite.height - top,
    {
        top = top + 1;
    }
    if top == sprite.height {
        return None;
    }
    let mut bottom: u32 = sprite.height - 1;
    while bottom > top && !row_has_ink(sprite, bottom)
        invariant
            sprite.wf(),
            top <= bottom < sprite.height,
            forall|y: int| bottom < y < sprite.height ==> !#[trigger] sprite.row_has_ink(y),
        decreases bottom,
    {
        bottom = bottom - 1;
    }
    Some((top, bottom))
}

/// The colour that a decimal colour number stands for: one byte each for red, green and blue,
/// from the high to the low end; what lies above is ignored.
pub open spec fn rgb_of(decimal_color: u32) -> Rgb {
    Rgb(
        [
            (decimal_color / 0x10000 % 0x100) as u8,
            (decimal_color / 0x100 % 0x100) as u8,
            (decimal_color % 0x100) as u8,
        ],
    )
}

/// The colour that a decimal colour number stands for.
pub fn decode_rgb(decimal_color: u32) -> (color: Rgb)
    ensures
        color == rgb_of(decimal_color),
{
    let r: u8 = (decimal_color / 0x10000 % 0x100) as u8;
    let g: u8 = (decimal_color / 0x100 % 0x100) as u8;
    let b: u8 = (decimal_color % 0x100) as u8;
    Rgb([r, g, b])
}

/// A colour number puts back together what it was made of.
pub proof fn law_decode_rgb_inverts_packing(r: u8, g: u8, b: u8)
    ensures
        rgb_of((r * 0x10000 + g * 0x100 + b) as u32) == Rgb([r, g, b]),
{
}

/// Drawing a sprite keeps the dimensions of the frame, and every byte of it outside of the
/// rectangle that the sprite covers.
pub proof fn law_blit_stays_inside(
    frame: Frame,
    sprite: RgbaImage,
    x: int,
    y: int,
    o256: int,
    i: int,
)
    requires
        0 <= i < frame.data.len(),
        !(x <= frame.column(i) < x + sprite.width && y <= frame.row(i) < y + sprite.height),
    ensures
        blitted(frame, sprite, x, y, o256).width == frame.width,
        blitted(frame, sprite, x, y, o256).height == frame.height,
        blitted(frame, sprite, x, y, o256).data[i] == frame.data[i],
{
}

/// A sprite that is drawn at no opacity leaves the frame as it is.
pub proof fn law_blit_transparent(frame: Frame, sprite: RgbaImage, x: int, y: int)
    ensures
        blitted(frame, sprite, x, y, 0) == frame,
{
    let after = blitted(frame, sprite, x, y, 0);
    assert forall|i: int| 0 <= i < frame.data.len() implies #[trigger] after.data[i]
        == frame.data[i] by {
        let sx = frame.column(i) - x;
        let sy = frame.row(i) - y;
        lemma_blend(frame.data[i], sprite.channel(sx, sy, i % 3), sprite.channel(sx, sy, 3), 0);
    }
    assert(after.data == frame.data);
}

/// An opacity in whole 256ths, to the nearest.
pub open spec fn opacity_256ths(opacity: Double) -> int {
    let n = nearest_whole(product(opacity, of_whole(256)));
    if n < 0 {
        0
    } else if n > u32::MAX {
        u32::MAX as int
    } else {
        n
    }
}

/// Counts an opacity in whole 256ths, to the nearest.
pub fn count_256ths(opacity: Double) -> (n: u32)
    ensures
        n == opacity_256ths(opacity),
{
    let n: i64 = opacity.times(Double::from_u64(256)).round_to_i64();
    if n < 0 {
        0
    } else if n > 0xffff_ffff {
        0xffff_ffff
    } else {
        n as u32
    }
}

/// Draws `sprite` onto `frame` with its top left corner at column `x` of row `y`, at a given part of
/// its own opacity. What lies outside the frame is cut off.
pub fn blit_cached_text(
    frame: &mut RgbImage,
    sprite: &RgbaImage,
    x: i32,
    y: i32,
    opacity: Double,
)
    requires
        old(frame).wf(),
        sprite.wf(),
        opacity_256ths(opacity) <= 256,
    ensures
        final(frame)@ == laid_on(
            old(frame)@,
            *sprite,
            x as int,
            y as int,
            opacity_256ths(opacity),
        ),
        final(frame).wf(),
{
    let o256: u32 = count_256ths(opacity);
    blit(frame, sprite, x, y, o256)
}

/// An opacity from zero to one is no more than 256 256ths.
pub proof fn law_opacity_fits(opacity: Double)
    requires
        (Double { bits: 0 }).at_most(opacity),
        opacity.at_most(Double { bits: ONE_BITS }),
    ensures
        0 <= opacity_256ths(opacity) <= 256,
{
    let u = unit();
    let whole = Double { bits: 0x4070_0000_0000_0000 };
    let one = Double { bits: ONE_BITS };
    lemma2_to64();
    lemma2_to64_rest();
    lemma_pow2_pos(1074);
    lemma_pow2_adds(52, 1030);
    lemma_pow2_adds(8, 1074);
    lemma_pow2_adds(52, 1022);
    assert(size(whole) == 256 * u);
    assert(size(one) == u);
    law_representable_is_exact(whole);
    assert(of_whole(256) == whole);
    lemma_magnitudes_ordered(opacity.magnitude(), one.magnitude());
    lemma_magnitudes_ordered(opacity.magnitude(), 0);
    let p = product(opacity, whole);
    let n = size(opacity) * size(whole);
    let top = u * size(whole);
    assert(n <= top) by (nonlinear_arith)
        requires
            n == size(opacity) * size(whole),
            top == u * size(whole),
            size(opacity) <= u,
    ;
    lemma_magnitude_monotone(n, top, u);
    lemma_magnitude_scales(size(whole), 1, u);
    assert(size(whole) * u == top) by (nonlinear_arith)
        requires
            top == u * size(whole),
    ;
    assert(1 * u == u);
    assert(nearest_magnitude(top, u) == whole.magnitude());
    assert(p.magnitude() <= whole.magnitude());
    lemma_magnitudes_ordered(p.magnitude(), whole.magnitude());
    let away = (2 * size(p) + u) / (2 * u);
    lemma_div_is_ordered(2 * size(p) as int + u, 513 * u as int, 2 * u as int);
    lemma_fundamental_div_mod_converse(513 * u as int, 2 * u as int, 256, u as int);
    lemma_div_pos_is_pos(2 * size(p) + u as int, 2 * u as int);
}

/// The byte of channel `c` of the pixel in a column and a row of a frame.
pub open spec fn pixel(frame: Frame, column: int, row: int, c: int) -> u8 {
    frame.data[(row * frame.width + column) * 3 + c]
}

/// The byte of channel `c` of the pixel in a column and a row of a sprite; that of channel 3 says how
/// opaque it is.
pub open spec fn texel(sprite: RgbaImage, column: int, row: int, c: int) -> u8 {
    sprite.data@[(row * sprite.width + column) * 4 + c]
}

/// The bytes of a pixel are those of its column and its row.
proof fn lemma_pixel_position(frame: Frame, column: int, row: int, c: int)
    requires
        frame.wf(),
        0 <= column < frame.width,
        0 <= row < frame.height,
        0 <= c < 3,
    ensures
        ({
            let i = (row * frame.width + column) * 3 + c;
            &&& 0 <= i < frame.data.len()
            &&& frame.row(i) == row
            &&& frame.column(i) == column
            &&& i % 3 == c
        }),
{
    let w = frame.width;
    let h = frame.height;
    let i = (row * w + column) * 3 + c;
    assert(0 <= row * w + column < w * h) by (nonlinear_arith)
        requires
            0 <= column < w,
            0 <= row,
            row + 1 <= h,
    ;
    lemma_pixel_bytes(frame, column, row, i);
}

/// Every pixel of a sprite lands on the frame as far from the top left corner of the sprite as it
/// lies within it, wherever that corner is: what it covers there is mixed of what was below and of
/// its own colour, by its own opacity and that of the whole, to within two steps. A pixel that is
/// opaque replaces what is below to within one step, one that is transparent leaves it as it is, and
/// the mixture never lies beyond the two.
pub proof fn law_sprite_pixels_land_in_place(
    frame: Frame,
    sprite: RgbaImage,
    x: int,
    y: int,
    o256: int,
    sx: int,
    sy: int,
    c: int,
)
    requires
        frame.wf(),
        sprite.wf(),
        0 <= o256 <= 256,
        x + sprite.width <= i32::MAX,
        y + sprite.height <= i32::MAX,
        0 <= sx < sprite.width,
        0 <= sy < sprite.height,
        0 <= x + sx < frame.width,
        0 <= y + sy < frame.height,
        0 <= c < 3,
    ensures
        ({
            let over = texel(sprite, sx, sy, c) as int;
            let alpha = texel(sprite, sx, sy, 3) as int;
            let under = pixel(frame, x + sx, y + sy, c) as int;
            let got = pixel(laid_on(frame, sprite, x, y, o256), x + sx, y + sy, c) as int;
            let exact = over * (alpha * o256) + under * (0x10000 - alpha * o256);
            &&& exact - 0x20000 < 0x10000 * got < exact + 0x20000
            &&& alpha == 255 && o256 == 256 ==> over - 1 <= got <= over
            &&& alpha == 0 || o256 == 0 ==> got == under
            &&& under <= over ==> under <= got <= over
            &&& over <= under ==> over <= got <= under
        }),
{
    let over = texel(sprite, sx, sy, c) as int;
    let alpha = texel(sprite, sx, sy, 3) as int;
    let under = pixel(frame, x + sx, y + sy, c) as int;
    let i = ((y + sy) * frame.width + (x + sx)) * 3 + c;
    let ea = cover(alpha as u8, o256);
    let got = pixel(laid_on(frame, sprite, x, y, o256), x + sx, y + sy, c) as int;
    lemma_pixel_position(frame, x + sx, y + sy, c);
    lemma_blend(under as u8, over as u8, alpha as u8, o256);
    let mix = over * ea + under * (256 - ea);
    let whole = alpha * o256;
    assert(got == mix / 256);
    assert(256 * ea <= whole < 256 * ea + 256);
    assert(over * whole + under * (0x10000 - whole) == 256 * mix + (over - under) * (whole - 256
        * ea)) by (nonlinear_arith)
        requires
            mix == over * ea + under * (256 - ea),
    ;
    assert(-0x10000 < (over - under) * (whole - 256 * ea) < 0x10000) by (nonlinear_arith)
        requires
            -256 < over - under < 256,
            0 <= whole - 256 * ea < 256,
    ;
    assert(alpha == 255 && o256 == 256 ==> whole == 255 * 256) by (nonlinear_arith)
        requires
            whole == alpha * o256,
    ;
    assert(alpha == 255 && o256 == 256 ==> ea == 255);
    assert(mix == 256 * under + (over - under) * ea) by (nonlinear_arith)
        requires
            mix == over * ea + under * (256 - ea),
    ;
    assert(ea == 255 ==> (over - under) * ea == 255 * (over - under)) by (nonlinear_arith);
    assert(under <= over ==> 0 <= (over - under) * ea <= (over - under) * 256) by (nonlinear_arith)
        requires
            0 <= ea <= 256,
    ;
    assert(over <= under ==> (over - under) * 256 <= (over - under) * ea <= 0) by (nonlinear_arith)
        requires
            0 <= ea <= 256,
    ;
}

/// A pixel of the frame that no pixel of the sprite lands on stays as it is, and so do the dimensions
/// of the frame.
pub proof fn law_other_pixels_stay(
    frame: Frame,
    sprite: RgbaImage,
    x: int,
    y: int,
    o256: int,
    column: int,
    row: int,
    c: int,
)
    requires
        frame.wf(),
        0 <= column < frame.width,
        0 <= row < frame.height,
        0 <= c < 3,
        column < x || x + sprite.width <= column || row < y || y + sprite.height <= row,
    ensures
        ({
            let after = laid_on(frame, sprite, x, y, o256);
            &&& after.wf()
            &&& after.width == frame.width
            &&& after.height == frame.height
            &&& pixel(after, column, row, c) == pixel(frame, column, row, c)
        }),
{
    lemma_pixel_position(frame, column, row, c);
}

/// Where a sprite is drawn does not change what it looks like: drawn `dx` columns and `dy` rows
/// further on, on a frame that shows the same there, it shows the same, also where an edge cuts it.
pub proof fn law_drawing_moves_with_its_place(
    frame: Frame,
    other: Frame,
    sprite: RgbaImage,
    x: int,
    y: int,
    dx: int,
    dy: int,
    o256: int,
    column: int,
    row: int,
    c: int,
)
    requires
        frame.wf(),
        other.wf(),
        x + sprite.width <= i32::MAX,
        y + sprite.height <= i32::MAX,
        x + dx + sprite.width <= i32::MAX,
        y + dy + sprite.height <= i32::MAX,
        0 <= column < frame.width,
        0 <= row < frame.height,
        0 <= column + dx < other.width,
        0 <= row + dy < other.height,
        0 <= c < 3,
        pixel(frame, column, row, c) == pixel(other, column + dx, row + dy, c),
    ensures
        pixel(laid_on(frame, sprite, x, y, o256), column, row, c) == pixel(
            laid_on(other, sprite, x + dx, y + dy, o256),
            column + dx,
            row + dy,
            c,
        ),
{
    lemma_pixel_position(frame, column, row, c);
    lemma_pixel_position(other, column + dx, row + dy, c);
}

/// A row of a sprite has ink exactly when one of its pixels is not fully transparent.
pub proof fn law_ink_is_what_shows(sprite: RgbaImage, row: int)
    ensures
        sprite.row_has_ink(row) <==> exists|column: int|
            0 <= column < sprite.width && #[trigger] texel(sprite, column, row, 3) != 0,
{
    if sprite.row_has_ink(row) {
        let column = choose|column: int|
            0 <= column < sprite.width && #[trigger] sprite.channel(column, row, 3) > 0;
        assert(texel(sprite, column, row, 3) != 0);
    }
    if exists|column: int|
        0 <= column < sprite.width && #[trigger] texel(sprite, column, row, 3) != 0 {
        let column = choose|column: int|
            0 <= column < sprite.width && #[trigger] texel(sprite, column, row, 3) != 0;
        assert(sprite.channel(column, row, 3) > 0);
    }
}

/// A colour number is its three bytes, from the high end to the low, above which nothing counts.
pub proof fn law_colour_packs_back(number: u32)
    ensures
        ({
            let Rgb(bytes) = rgb_of(number);
            bytes@[0] * 0x10000 + bytes@[1] * 0x100 + bytes@[2] == number % 0x100_0000
        }),
{
    let n = number as int;
    let Rgb(bytes) = rgb_of(number);
    assert(bytes@[0] == n / 0x10000 % 0x100);
    assert(bytes@[1] == n / 0x100 % 0x100);
    assert(bytes@[2] == n % 0x100);
    lemma_bytes_of_number(n);
}

/// Three bytes of a number, by division.
proof fn lemma_bytes_of_number(n: int)
    requires
        0 <= n,
    ensures
        (n / 0x10000 % 0x100) * 0x10000 + (n / 0x100 % 0x100) * 0x100 + n % 0x100 == n % 0x100_0000,
{
    let low = n / 0x100;
    assert(n / 0x10000 == low / 0x100);
}

/// `share` is how many 256ths a pixel covers what lies under it by: its own opacity times that of the
/// danmaku, rounded down.
pub open spec fn is_share(share: int, alpha: int, o256: int) -> bool {
    256 * share <= alpha * o256 < 256 * (share + 1)
}

/// What is seen where a sprite is drawn is the mean of what lies there by the share that the pixel of
/// the sprite has, rounded down.
pub proof fn law_mixing_rounds_down(
    frame: Frame,
    sprite: RgbaImage,
    x: int,
    y: int,
    o256: int,
    sx: int,
    sy: int,
    c: int,
)
    requires
        frame.wf(),
        sprite.wf(),
        0 <= o256 <= 256,
        x + sprite.width <= i32::MAX,
        y + sprite.height <= i32::MAX,
        0 <= sx < sprite.width,
        0 <= sy < sprite.height,
        0 <= x + sx < frame.width,
        0 <= y + sy < frame.height,
        0 <= c < 3,
    ensures
        ({
            let over = texel(sprite, sx, sy, c) as int;
            let under = pixel(frame, x + sx, y + sy, c) as int;
            let got = pixel(laid_on(frame, sprite, x, y, o256), x + sx, y + sy, c) as int;
            exists|share: int| #[trigger]
                is_share(share, texel(sprite, sx, sy, 3) as int, o256) && 256 * got <= over * share
                    + under * (256 - share) < 256 * (got + 1)
        }),
{
    let over = texel(sprite, sx, sy, c) as int;
    let alpha = texel(sprite, sx, sy, 3) as int;
    let under = pixel(frame, x + sx, y + sy, c) as int;
    let share = cover(alpha as u8, o256);
    let got = pixel(laid_on(frame, sprite, x, y, o256), x + sx, y + sy, c) as int;
    lemma_pixel_position(frame, x + sx, y + sy, c);
    lemma_blend(under as u8, over as u8, alpha as u8, o256);
    assert(got == (over * share + under * (256 - share)) / 256);
    assert(is_share(share, alpha, o256));
}

/// The opacity in 256ths is the one nearest to 256 times the opacity, but for the rounding of
/// doubles.
pub proof fn law_opacity_is_nearest(opacity: Double)
    requires
        opacity.spec_is_finite(),
        opacity.value() == 0 || pow2(1000) <= opacity.value() <= unit(),
    ensures
        ({
            let exact = 256 * opacity.value();
            let got = opacity_256ths(opacity) * unit();
            &&& pow2(53) * (2 * (got - exact)) <= pow2(53) * unit() + 2 * exact
            &&& pow2(53) * (2 * (exact - got)) <= pow2(53) * unit() + 2 * exact
        }),
{
    let u = unit() as int;
    let t = pow2(53) as int;
    let p = product(opacity, of_whole(256));
    let v = opacity.value();
    lemma2_to64();
    lemma2_to64_rest();
    lemma_pow2_pos(1074);
    law_whole_is_exact(256);
    let n = size(opacity) * size(of_whole(256));
    if v == 0 {
        assert(n == 0) by (nonlinear_arith)
            requires
                n == size(opacity) * size(of_whole(256)),
                size(opacity) == 0,
        ;
        lemma_zero_rounds(unit());
        assert(p.magnitude() == 0);
        assert(size(p) == 0);
    } else {
        assert(n == unit() * (256 * size(opacity))) by (nonlinear_arith)
            requires
                n == size(opacity) * (256 * unit()),
        ;
        lemma_pow2_strictly_increases(52, 1000);
        lemma_pow2_adds(8, 1074);
        assert(n >= unit() * pow2(52) && n <= unit() * pow2(1082)) by (nonlinear_arith)
            requires
                n == unit() * (256 * size(opacity)),
                pow2(52) <= size(opacity) <= unit(),
                pow2(1082) == 256 * unit(),
        ;
        lemma_rounds_below_power(n, unit(), 1082);
        law_product_is_near(opacity, of_whole(256));
        assert(t * (size(p) - 256 * v) <= 256 * v && t * (256 * v - size(p)) <= 256 * v)
            by (nonlinear_arith)
            requires
                t * (u * size(p) - n) <= n,
                t * (n - u * size(p)) <= n,
                n == u * (256 * v),
                u > 0,
        ;
    }
    assert(256 * u <= i64::MAX * u);
    assert(size(p) <= 256 * u);
    law_nearest_whole_is_nearest(p);
    let k = nearest_whole(p);
    let w = p.value();
    assert(w >= 0);
    assert(0 <= k && k <= 257) by (nonlinear_arith)
        requires
            2 * (k * u - w) <= u,
            2 * (w - k * u) <= u,
            0 <= w <= 256 * u,
            u > 0,
    ;
    assert(t * (w - 256 * v) <= 256 * v && t * (256 * v - w) <= 256 * v) by {
        if v == 0 {
            assert(t * 0 == 0);
        }
    }
    assert(t * (2 * (k * u - 256 * v)) <= t * u + 2 * (256 * v)) by (nonlinear_arith)
        requires
            2 * (k * u - w) <= u,
            t * (w - 256 * v) <= 256 * v,
            t > 0,
    ;
    assert(t * (2 * (256 * v - k * u)) <= t * u + 2 * (256 * v)) by (nonlinear_arith)
        requires
            2 * (w - k * u) <= u,
            t * (256 * v - w) <= 256 * v,
            t > 0,
    ;
}

} // verus!
