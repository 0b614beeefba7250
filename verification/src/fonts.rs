//! Text as it is drawn: which fonts are used, and how drawn rectangles become a sprite.

use crate::raster::{Rgba, RgbaImage};
use vstd::prelude::*;
use vstd::string::*;

verus! {

/// Where a font comes from.
#[derive(Clone, Copy, Debug, PartialEq, Eq, Structural)]
pub enum FontSource {
    /// The font file with this index that the user gives.
    User(usize),
    /// All fonts of the system.
    System,
    /// The bundled font with this index.
    Bundled(usize),
}

/// How many fonts are bundled.
pub const BUNDLED: usize = 11;

/// The font files that the user gives.
pub open spec fn user_fonts(n: nat) -> Seq<FontSource> {
    Seq::new(n, |i: int| FontSource::User(i as usize))
}

/// The bundled fonts.
pub open spec fn bundled_fonts() -> Seq<FontSource> {
    Seq::new(BUNDLED as nat, |i: int| FontSource::Bundled(i as usize))
}

/// The order in which fonts are loaded, and used: those that the user gives, in the given order;
/// those of the system, if they are asked for; those that are bundled.
pub open spec fn load_order_of(n_user: nat, system: bool) -> Seq<FontSource> {
    user_fonts(n_user) + (if system {
        seq![FontSource::System]
    } else {
        Seq::empty()
    }) + bundled_fonts()
}

/// Works out the order in which fonts are loaded, and used.
pub fn load_order(n_user: usize, system: bool) -> (order: Vec<FontSource>)
    ensures
        order@ == load_order_of(n_user as nat, system),
{
    let mut order: Vec<FontSource> = Vec::new();
    let mut i: usize = 0;
    while i < n_user
        invariant
            i <= n_user,
            order@ == user_fonts(i as nat),
        decreases n_user - i,
    {
        order.push(FontSource::User(i));
        assert(user_fonts((i + 1) as nat) == user_fonts(i as nat).push(FontSource::User(i)));
        i += 1;
    }
    if system {
        order.push(FontSource::System);
    }
    let ghost before = order@;
    let mut j: usize = 0;
    assert(bundled_fonts().take(0) == Seq::<FontSource>::empty());
    while j < BUNDLED
        invariant
            j <= BUNDLED,
            order@ == before + bundled_fonts().take(j as int),
        decreases BUNDLED - j,
    {
        order.push(FontSource::Bundled(j));
        assert(bundled_fonts().take(j + 1) == bundled_fonts().take(j as int).push(
            FontSource::Bundled(j),
        ));
        j += 1;
    }
    assert(bundled_fonts().take(BUNDLED as int) == bundled_fonts());
    order
}

/// Fonts that the user gives come before those of the system, and those before the bundled ones.
pub proof fn law_user_fonts_come_first(n_user: nat, system: bool, i: int, j: int)
    requires
        0 <= i < j < load_order_of(n_user, system).len(),
    ensures
        load_order_of(n_user, system)[j] is User ==> load_order_of(n_user, system)[i] is User,
        load_order_of(n_user, system)[i] is Bundled ==> load_order_of(n_user, system)[j] is Bundled,
        load_order_of(n_user, system)[i] is System ==> load_order_of(n_user, system)[j] is Bundled,
{
}

/// The file name of the bundled font with a given index.
pub fn bundled_name(i: usize) -> (name: &'static str)
    requires
        i < BUNDLED,
    ensures
        name@ == bundled_file(i as int),
{
    match i {
        0 => "SourceHanSansSC-Regular-2.otf",
        1 => "NotoSansSymbols2-Regular.ttf",
        2 => "NotoSansSymbols-Black.ttf",
        3 => "NotoSansSymbols-Bold.ttf",
        4 => "NotoSansSymbols-ExtraBold.ttf",
        5 => "NotoSansSymbols-ExtraLight.ttf",
        6 => "NotoSansSymbols-Light.ttf",
        7 => "NotoSansSymbols-Medium.ttf",
        8 => "NotoSansSymbols-Regular.ttf",
        9 => "NotoSansSymbols-SemiBold.ttf",
        _ => "NotoSansSymbols-Thin.ttf",
    }
}

/// The file name of the bundled font with a given index.
pub open spec fn bundled_file(i: int) -> Seq<char> {
    if i == 0 {
        "SourceHanSansSC-Regular-2.otf"@
    } else if i == 1 {
        "NotoSansSymbols2-Regular.ttf"@
    } else if i == 2 {
        "NotoSansSymbols-Black.ttf"@
    } else if i == 3 {
        "NotoSansSymbols-Bold.ttf"@
    } else if i == 4 {
        "NotoSansSymbols-ExtraBold.ttf"@
    } else if i == 5 {
        "NotoSansSymbols-ExtraLight.ttf"@
    } else if i == 6 {
        "NotoSansSymbols-Light.ttf"@
    } else if i == 7 {
        "NotoSansSymbols-Medium.ttf"@
    } else if i == 8 {
        "NotoSansSymbols-Regular.ttf"@
    } else if i == 9 {
        "NotoSansSymbols-SemiBold.ttf"@
    } else {
        "NotoSansSymbols-Thin.ttf"@
    }
}

/// The font that text is set in where it has the characters.
pub struct PrimaryFont {
    pub family: String,
    pub weight: u16,
}

/// The name of a font: its first family name, or else its PostScript name.
pub open spec fn name_of(families: Seq<Seq<char>>, post_script_name: Seq<char>) -> Seq<char> {
    if families.len() > 0 {
        families[0]
    } else {
        post_script_name
    }
}

/// Chooses the primary font, once one more font of the user has been loaded: the first one stays.
pub fn choose_primary(
    primary: Option<PrimaryFont>,
    families: &Vec<String>,
    post_script_name: &str,
    weight: u16,
) -> (chosen: PrimaryFont)
    ensures
        match primary {
            Some(p) => chosen == p,
            None => chosen.family@ == name_of(
                crate::text::texts(families@),
                post_script_name@,
            ) && chosen.weight == weight,
        },
{
    match primary {
        Some(p) => p,
        None => {
            let family = if families.len() > 0 {
                families[0].clone()
            } else {
                post_script_name.to_owned()
            };
            PrimaryFont { family, weight }
        },
    }
}

/// A rectangle of one colour, as text is drawn from them: alpha, red, green and blue, from the high
/// to the low end.
#[derive(Clone, Copy, Debug, PartialEq, Eq, Structural)]
pub struct GlyphRect {
    pub x: i32,
    pub y: i32,
    pub w: u32,
    pub h: u32,
    pub pixel: u32,
}

/// The smallest rectangle around others: its edges.
#[derive(Clone, Copy, Debug, PartialEq, Eq, Structural)]
pub struct InkBox {
    pub min_x: i32,
    pub min_y: i32,
    pub max_x: i32,
    pub max_y: i32,
}

/// The far edges of a rectangle can be held.
pub open spec fn rect_fits(r: GlyphRect) -> bool {
    r.x + r.w <= i32::MAX && r.y + r.h <= i32::MAX
}

/// The far edges of all rectangles can be held.
pub open spec fn rects_fit(rects: Seq<GlyphRect>) -> bool {
    forall|i: int| 0 <= i < rects.len() ==> rect_fits(#[trigger] rects[i])
}

pub open spec fn min_of(a: int, b: int) -> int {
    if b < a {
        b
    } else {
        a
    }
}

pub open spec fn max_of(a: int, b: int) -> int {
    if b > a {
        b
    } else {
        a
    }
}

/// The box around a rectangle.
pub open spec fn box_of(r: GlyphRect) -> InkBox {
    InkBox { min_x: r.x, min_y: r.y, max_x: (r.x + r.w) as i32, max_y: (r.y + r.h) as i32 }
}

/// The box around two boxes.
pub open spec fn joined(a: InkBox, b: InkBox) -> InkBox {
    InkBox {
        min_x: min_of(a.min_x as int, b.min_x as int) as i32,
        min_y: min_of(a.min_y as int, b.min_y as int) as i32,
        max_x: max_of(a.max_x as int, b.max_x as int) as i32,
        max_y: max_of(a.max_y as int, b.max_y as int) as i32,
    }
}

/// The box around all rectangles, if there are any.
pub open spec fn hull(rects: Seq<GlyphRect>) -> Option<InkBox>
    decreases rects.len(),
{
    if rects.len() == 0 {
        None
    } else {
        match hull(rects.drop_last()) {
            Some(b) => Some(joined(b, box_of(rects.last()))),
            None => Some(box_of(rects.last())),
        }
    }
}

/// Finds the box around all rectangles.
pub fn measure(rects: &Vec<GlyphRect>) -> (ink: Option<InkBox>)
    requires
        rects_fit(rects@),
    ensures
        ink == hull(rects@),
{
    let mut ink: Option<InkBox> = None;
    let mut i: usize = 0;
    while i < rects.len()
        invariant
            rects_fit(rects@),
            i <= rects@.len(),
            ink == hull(rects@.take(i as int)),
        decreases rects@.len() - i,
    {
        let r = rects[i];
        assert(rect_fits(r));
        assert(rects@.take(i + 1).drop_last() == rects@.take(i as int));
        let right: i32 = (r.x as i64 + r.w as i64) as i32;
        let low: i32 = (r.y as i64 + r.h as i64) as i32;
        ink = match ink {
            None => Some(InkBox { min_x: r.x, min_y: r.y, max_x: right, max_y: low }),
            Some(b) => Some(
                InkBox {
                    min_x: if r.x < b.min_x {
                        r.x
                    } else {
                        b.min_x
                    },
                    min_y: if r.y < b.min_y {
                        r.y
                    } else {
                        b.min_y
                    },
                    max_x: if right > b.max_x {
                        right
                    } else {
                        b.max_x
                    },
                    max_y: if low > b.max_y {
                        low
                    } else {
                        b.max_y
                    },
                },
            ),
        };
        i += 1;
    }
    assert(rects@.take(i as int) == rects@);
    ink
}

/// The width of the sprite that the ink is drawn into: one column is left free on either side.
pub open spec fn sprite_width(b: InkBox) -> int {
    b.max_x - b.min_x + 2
}

/// The height of the sprite that the ink is drawn into: one row is left free on either side.
pub open spec fn sprite_height(b: InkBox) -> int {
    b.max_y - b.min_y + 2
}

/// The ink can be drawn into a sprite.
pub open spec fn can_render(rects: Seq<GlyphRect>) -> bool {
    &&& rects_fit(rects)
    &&& hull(rects) is Some ==> {
        let b = hull(rects)->0;
        &&& sprite_width(b) <= i32::MAX
        &&& sprite_height(b) <= i32::MAX
        &&& sprite_width(b) * sprite_height(b) * 4 <= usize::MAX
    }
}

/// Whether the ink can be drawn into a sprite.
pub fn check_render(rects: &Vec<GlyphRect>) -> (b: bool)
    ensures
        b == can_render(rects@),
{
    let mut i: usize = 0;
    while i < rects.len()
        invariant
            i <= rects@.len(),
            forall|k: int| 0 <= k < i ==> rect_fits(#[trigger] rects@[k]),
        decreases rects@.len() - i,
    {
        let r = rects[i];
        if r.x as i64 + r.w as i64 > 0x7fff_ffff || r.y as i64 + r.h as i64 > 0x7fff_ffff {
            assert(!rect_fits(rects@[i as int]));
            return false;
        }
        i += 1;
    }
    match measure(rects) {
        None => true,
        Some(b) => {
            let w: i64 = b.max_x as i64 - b.min_x as i64 + 2;
            let h: i64 = b.max_y as i64 - b.min_y as i64 + 2;
            proof {
                lemma_hull_contains(rects@);
            }
            if w > 0x7fff_ffff || h > 0x7fff_ffff {
                return false;
            }
            assert(w * h <= 0x7fff_ffff * 0x7fff_ffff) by (nonlinear_arith)
                requires
                    0 <= w <= 0x7fff_ffff,
                    0 <= h <= 0x7fff_ffff,
            ;
            assert(0 <= w * h) by (nonlinear_arith)
                requires
                    0 <= w,
                    0 <= h,
            ;
            let bytes: u128 = w as u128 * h as u128 * 4;
            bytes <= usize::MAX as u128
        },
    }
}

/// The box around all rectangles contains each of them.
pub proof fn lemma_hull_contains(rects: Seq<GlyphRect>)
    requires
        rects_fit(rects),
    ensures
        hull(rects) is Some <==> rects.len() > 0,
        hull(rects) is Some ==> {
            let b = hull(rects)->0;
            &&& b.min_x <= b.max_x
            &&& b.min_y <= b.max_y
            &&& forall|i: int|
                0 <= i < rects.len() ==> {
                    &&& b.min_x <= (#[trigger] rects[i]).x
                    &&& rects[i].x + rects[i].w <= b.max_x
                    &&& b.min_y <= rects[i].y
                    &&& rects[i].y + rects[i].h <= b.max_y
                }
        },
    decreases rects.len(),
{
    if rects.len() > 0 {
        let before = rects.drop_last();
        assert forall|i: int| 0 <= i < before.len() implies rect_fits(#[trigger] before[i]) by {
            assert(rect_fits(rects[i]));
        }
        lemma_hull_contains(before);
        assert(rect_fits(rects.last()));
        let b = hull(rects)->0;
        assert forall|i: int| 0 <= i < rects.len() implies b.min_x <= (#[trigger] rects[i]).x
            && rects[i].x + rects[i].w <= b.max_x && b.min_y <= rects[i].y && rects[i].y
            + rects[i].h <= b.max_y by {
            if i < before.len() {
                assert(rects[i] == before[i]);
            }
        }
    }
}

/// The rectangle covers a position.
pub open spec fn rect_covers(r: GlyphRect, x: int, y: int) -> bool {
    r.x <= x < r.x + r.w && r.y <= y < r.y + r.h
}

/// The colour at a position, once the first `n` rectangles are drawn: that of the last that covers
/// it.
pub open spec fn colour_at(rects: Seq<GlyphRect>, n: int, x: int, y: int) -> Option<u32>
    decreases n,
{
    if n <= 0 {
        None
    } else if rect_covers(rects[n - 1], x, y) {
        Some(rects[n - 1].pixel)
    } else {
        colour_at(rects, n - 1, x, y)
    }
}

/// A byte of a colour: red, green, blue, alpha.
pub open spec fn colour_byte(pixel: u32, c: int) -> u8 {
    if c == 0 {
        (pixel / 0x10000 % 0x100) as u8
    } else if c == 1 {
        (pixel / 0x100 % 0x100) as u8
    } else if c == 2 {
        (pixel % 0x100) as u8
    } else {
        (pixel / 0x100_0000) as u8
    }
}

/// A byte of a position that is drawn on, or of one that is not.
pub open spec fn byte_of(colour: Option<u32>, c: int) -> u8 {
    match colour {
        Some(pixel) => colour_byte(pixel, c),
        None => 0,
    }
}

/// Every position of a sprite is as `shade` says; positions are counted so that the box around the
/// ink begins at column one of row one.
pub open spec fn shows(sprite: RgbaImage, b: InkBox, shade: spec_fn(int, int) -> Option<u32>) -> bool {
    forall|x: int, y: int, c: int|
        0 <= x < sprite.width && 0 <= y < sprite.height && 0 <= c < 4 ==> #[trigger] sprite.channel(
            x,
            y,
            c,
        ) == byte_of(shade(x + b.min_x - 1, y + b.min_y - 1), c)
}

/// The bytes of two different pixels are apart.
proof fn lemma_pixels_apart(w: int, x: int, y: int, u: int, v: int)
    requires
        0 <= x < w,
        0 <= u < w,
        x != u || y != v,
    ensures
        y * w + x != v * w + u,
{
    if y != v {
        assert(y * w + x != v * w + u) by (nonlinear_arith)
            requires
                0 <= x < w,
                0 <= u < w,
                y != v,
        ;
    }
}

/// Overwrites one pixel, and no other.
fn set_pixel(sprite: &mut RgbaImage, x: u32, y: u32, pixel: u32)
    requires
        old(sprite).wf(),
        x < old(sprite).width,
        y < old(sprite).height,
    ensures
        final(sprite).wf(),
        final(sprite).width == old(sprite).width,
        final(sprite).height == old(sprite).height,
        forall|u: int, v: int, c: int|
            0 <= u < old(sprite).width && 0 <= v < old(sprite).height && 0 <= c < 4
                ==> #[trigger] final(sprite).channel(u, v, c) == if u == x && v == y {
                colour_byte(pixel, c)
            } else {
                old(sprite).channel(u, v, c)
            },
{
    let ghost before = *sprite;
    let p = Rgba(
        [
            (pixel / 0x10000 % 0x100) as u8,
            (pixel / 0x100 % 0x100) as u8,
            (pixel % 0x100) as u8,
            (pixel / 0x100_0000) as u8,
        ],
    );
    sprite.put_pixel(x, y, p);
    proof {
        let w = before.width as int;
        let h = before.height as int;
        assert forall|u: int, v: int, c: int|
            0 <= u < w && 0 <= v < h && 0 <= c < 4 implies #[trigger] sprite.channel(u, v, c)
            == if u == x && v == y {
            colour_byte(pixel, c)
        } else {
            before.channel(u, v, c)
        } by {
            let at = (v * w + u) * 4 + c;
            assert(0 <= v * w + u && v * w + u < w * h) by (nonlinear_arith)
                requires
                    0 <= u < w,
                    0 <= v < h,
            ;
            assert(0 <= y * w + x && y * w + x < w * h) by (nonlinear_arith)
                requires
                    0 <= x < w,
                    0 <= y < h,
            ;
            if !(u == x && v == y) {
                lemma_pixels_apart(w, x as int, y as int, u, v);
            }
        }
    }
}

/// Draws one more rectangle into a sprite.
fn paint_rect(
    sprite: &mut RgbaImage,
    b: InkBox,
    r: GlyphRect,
    Ghost(shade): Ghost<spec_fn(int, int) -> Option<u32>>,
)
    requires
        old(sprite).wf(),
        shows(*old(sprite), b, shade),
        rect_fits(r),
        b.min_x <= r.x,
        r.x + r.w <= b.max_x,
        b.min_y <= r.y,
        r.y + r.h <= b.max_y,
        old(sprite).width == sprite_width(b),
        old(sprite).height == sprite_height(b),
        sprite_width(b) <= i32::MAX,
        sprite_height(b) <= i32::MAX,
    ensures
        final(sprite).wf(),
        final(sprite).width == old(sprite).width,
        final(sprite).height == old(sprite).height,
        shows(
            *final(sprite),
            b,
            |x: int, y: int|
                if rect_covers(r, x, y) {
                    Some(r.pixel)
                } else {
                    shade(x, y)
                },
        ),
{
    let left: u32 = (r.x as i64 - b.min_x as i64 + 1) as u32;
    let top: u32 = (r.y as i64 - b.min_y as i64 + 1) as u32;
    let mut dy: u32 = 0;
    while dy < r.h
        invariant
            sprite.wf(),
            sprite.width == old(sprite).width,
            sprite.height == old(sprite).height,
            dy <= r.h,
            left == r.x - b.min_x + 1,
            top == r.y - b.min_y + 1,
            b.min_x <= r.x,
            r.x + r.w <= b.max_x,
            b.min_y <= r.y,
            r.y + r.h <= b.max_y,
            sprite.width == sprite_width(b),
            sprite.height == sprite_height(b),
            sprite_width(b) <= i32::MAX,
            sprite_height(b) <= i32::MAX,
            shows(
                *sprite,
                b,
                |x: int, y: int|
                    if rect_covers(r, x, y) && y < r.y + dy {
                        Some(r.pixel)
                    } else {
                        shade(x, y)
                    },
            ),
        decreases r.h - dy,
    {
        let mut dx: u32 = 0;
        while dx < r.w
            invariant
                sprite.wf(),
                sprite.width == old(sprite).width,
                sprite.height == old(sprite).height,
                dy < r.h,
                dx <= r.w,
                left == r.x - b.min_x + 1,
                top == r.y - b.min_y + 1,
                b.min_x <= r.x,
                r.x + r.w <= b.max_x,
                b.min_y <= r.y,
                r.y + r.h <= b.max_y,
                sprite.width == sprite_width(b),
                sprite.height == sprite_height(b),
                sprite_width(b) <= i32::MAX,
                sprite_height(b) <= i32::MAX,
                shows(
                    *sprite,
                    b,
                    |x: int, y: int|
                        if rect_covers(r, x, y) && (y < r.y + dy || (y == r.y + dy && x < r.x
                            + dx)) {
                            Some(r.pixel)
                        } else {
                            shade(x, y)
                        },
                ),
            decreases r.w - dx,
        {
            set_pixel(sprite, left + dx, top + dy, r.pixel);
            dx += 1;
        }
        dy += 1;
    }
}

/// Draws text from its rectangles into a sprite that is just large enough, with one pixel left free
/// on every side; without rectangles, the sprite is empty.
pub fn render_sprite(rects: &Vec<GlyphRect>) -> (sprite: RgbaImage)
    requires
        can_render(rects@),
    ensures
        sprite.wf(),
        match hull(rects@) {
            None => sprite.width == 0 && sprite.height == 0,
            Some(b) => {
                &&& sprite.width == sprite_width(b)
                &&& sprite.height == sprite_height(b)
                &&& shows(
                    sprite,
                    b,
                    |x: int, y: int| colour_at(rects@, rects@.len() as int, x, y),
                )
            },
        },
{
    let b = match measure(rects) {
        Some(b) => b,
        None => {
            return RgbaImage::new(0, 0);
        },
    };
    proof {
        lemma_hull_contains(rects@);
    }
    let width: u32 = (b.max_x as i64 - b.min_x as i64 + 2) as u32;
    let height: u32 = (b.max_y as i64 - b.min_y as i64 + 2) as u32;
    let mut sprite = RgbaImage::new(width, height);
    proof {
        let w = width as int;
        let h = height as int;
        assert forall|x: int, y: int, c: int|
            0 <= x < w && 0 <= y < h && 0 <= c < 4 implies #[trigger] sprite.channel(x, y, c)
            == 0u8 by {
            assert(0 <= y * w + x && y * w + x < w * h) by (nonlinear_arith)
                requires
                    0 <= x < w,
                    0 <= y < h,
            ;
        }
    }
    let mut i: usize = 0;
    while i < rects.len()
        invariant
            rects_fit(rects@),
            i <= rects@.len(),
            hull(rects@) == Some(b),
            forall|k: int|
                0 <= k < rects@.len() ==> {
                    &&& b.min_x <= (#[trigger] rects@[k]).x
                    &&& rects@[k].x + rects@[k].w <= b.max_x
                    &&& b.min_y <= rects@[k].y
                    &&& rects@[k].y + rects@[k].h <= b.max_y
                },
            sprite.wf(),
            sprite.width == sprite_width(b),
            sprite.height == sprite_height(b),
            sprite_width(b) <= i32::MAX,
            sprite_height(b) <= i32::MAX,
            shows(sprite, b, |x: int, y: int| colour_at(rects@, i as int, x, y)),
        decreases rects@.len() - i,
    {
        let r = rects[i];
        assert(rect_fits(r));
        paint_rect(
            &mut sprite,
            b,
            r,
            Ghost(|x: int, y: int| colour_at(rects@, i as int, x, y)),
        );
        i += 1;
    }
    sprite
}

/// The size of the sprite that text is drawn into.
pub fn text_size(rects: &Vec<GlyphRect>) -> (size: (u32, u32))
    requires
        can_render(rects@),
    ensures
        match hull(rects@) {
            None => size == (0u32, 0u32),
            Some(b) => size.0 == sprite_width(b) && size.1 == sprite_height(b),
        },
{
    proof {
        lemma_hull_contains(rects@);
    }
    match measure(rects) {
        None => (0, 0),
        Some(b) => (
            (b.max_x as i64 - b.min_x as i64 + 2) as u32,
            (b.max_y as i64 - b.min_y as i64 + 2) as u32,
        ),
    }
}

/// No ink is cut off: every position that a rectangle covers lies within the sprite, and not at its
/// edge.
pub proof fn law_ink_is_not_cut(rects: Seq<GlyphRect>, i: int, x: int, y: int)
    requires
        can_render(rects),
        0 <= i < rects.len(),
        rect_covers(rects[i], x, y),
    ensures
        ({
            let b = hull(rects)->0;
            &&& 1 <= x - b.min_x + 1 < sprite_width(b) - 1
            &&& 1 <= y - b.min_y + 1 < sprite_height(b) - 1
        }),
{
    lemma_hull_contains(rects);
}

/// Every font that the user gives is loaded, in the given order; the system's are exactly if they are
/// asked for; and every bundled one is, in order. Nothing is loaded twice.
pub proof fn law_every_font_is_loaded(n_user: nat, system: bool, i: int)
    requires
        n_user <= usize::MAX,
        0 <= i < load_order_of(n_user, system).len(),
    ensures
        ({
            let order = load_order_of(n_user, system);
            let after = order.len() - BUNDLED;
            &&& after == n_user || after == n_user + 1
            &&& after == n_user + 1 <==> system
            &&& i < n_user <==> order[i] is User
            &&& order[i] matches FontSource::User(k) ==> k == i
            &&& i >= after <==> order[i] is Bundled
            &&& order[i] matches FontSource::Bundled(k) ==> k == i - after
        }),
{
}

/// The box around rectangles is no larger than it must be: on each side, one of them reaches its
/// edge.
pub proof fn law_box_is_tight(rects: Seq<GlyphRect>)
    requires
        rects_fit(rects),
        rects.len() > 0,
    ensures
        hull(rects) is Some,
        exists|i: int| 0 <= i < rects.len() && (#[trigger] rects[i]).x == (hull(rects)->0).min_x,
        exists|i: int| 0 <= i < rects.len() && (#[trigger] rects[i]).y == (hull(rects)->0).min_y,
        exists|i: int|
            0 <= i < rects.len() && (#[trigger] rects[i]).x + rects[i].w == (hull(rects)->0).max_x,
        exists|i: int|
            0 <= i < rects.len() && (#[trigger] rects[i]).y + rects[i].h == (hull(rects)->0).max_y,
    decreases rects.len(),
{
    let before = rects.drop_last();
    let last = rects.len() - 1;
    assert(rect_fits(rects[last]));
    if before.len() == 0 {
        assert(hull(before) is None);
        assert(rects[0] == rects.last());
    } else {
        assert forall|i: int| 0 <= i < before.len() implies rect_fits(#[trigger] before[i]) by {
            assert(rect_fits(rects[i]));
        }
        law_box_is_tight(before);
        let b = hull(before)->0;
        let i = choose|i: int| 0 <= i < before.len() && (#[trigger] before[i]).x == b.min_x;
        let j = choose|i: int| 0 <= i < before.len() && (#[trigger] before[i]).y == b.min_y;
        let k = choose|i: int|
            0 <= i < before.len() && (#[trigger] before[i]).x + before[i].w == b.max_x;
        let l = choose|i: int|
            0 <= i < before.len() && (#[trigger] before[i]).y + before[i].h == b.max_y;
        assert(rects[i] == before[i] && rects[j] == before[j] && rects[k] == before[k] && rects[l]
            == before[l]);
        assert(rects[last] == rects.last());
    }
}

/// Exactly one column or row of a sprite is left free beyond the ink on each side: the leftmost
/// rectangle begins in column one, the rightmost ends one column before the last, and so for the
/// rows.
pub proof fn law_margin_is_one_pixel(rects: Seq<GlyphRect>)
    requires
        rects_fit(rects),
        rects.len() > 0,
    ensures
        ({
            let b = hull(rects)->0;
            &&& exists|i: int|
                0 <= i < rects.len() && (#[trigger] rects[i]).x + rects[i].w - b.min_x + 1
                    == sprite_width(b) - 1
            &&& exists|i: int|
                0 <= i < rects.len() && (#[trigger] rects[i]).y + rects[i].h - b.min_y + 1
                    == sprite_height(b) - 1
            &&& exists|i: int| 0 <= i < rects.len() && (#[trigger] rects[i]).x - b.min_x + 1 == 1
            &&& exists|i: int| 0 <= i < rects.len() && (#[trigger] rects[i]).y - b.min_y + 1 == 1
        }),
{
    law_box_is_tight(rects);
    let b = hull(rects)->0;
    let i = choose|i: int| 0 <= i < rects.len() && (#[trigger] rects[i]).x == b.min_x;
    let j = choose|i: int| 0 <= i < rects.len() && (#[trigger] rects[i]).y == b.min_y;
    let k = choose|i: int| 0 <= i < rects.len() && (#[trigger] rects[i]).x + rects[i].w == b.max_x;
    let l = choose|i: int| 0 <= i < rects.len() && (#[trigger] rects[i]).y + rects[i].h == b.max_y;
    assert(rects[i].x - b.min_x + 1 == 1 && rects[j].y - b.min_y + 1 == 1);
    assert(rects[k].x + rects[k].w - b.min_x + 1 == sprite_width(b) - 1);
    assert(rects[l].y + rects[l].h - b.min_y + 1 == sprite_height(b) - 1);
}

/// What is drawn later covers what was drawn before; what nothing covers stays free.
proof fn lemma_last_shows(rects: Seq<GlyphRect>, n: int, i: int, x: int, y: int)
    requires
        0 <= n <= rects.len(),
        0 <= i < n ==> rect_covers(rects[i], x, y),
        forall|k: int| i < k < n ==> !rect_covers(#[trigger] rects[k], x, y),
        -1 <= i < n,
    ensures
        colour_at(rects, n, x, y) == if i < 0 {
            None
        } else {
            Some(rects[i].pixel)
        },
    decreases n,
{
    if n > 0 && i < n - 1 {
        lemma_last_shows(rects, n - 1, i, x, y);
    }
}

/// A rectangle of text is seen in the sprite where it lies, counted from the upper left corner of
/// the ink and one pixel further: there stand the bytes of its colour, red, green, blue and alpha,
/// if no later one covers it.
pub proof fn law_rectangle_is_seen(
    rects: Seq<GlyphRect>,
    sprite: RgbaImage,
    b: InkBox,
    i: int,
    x: int,
    y: int,
)
    requires
        rects_fit(rects),
        hull(rects) == Some(b),
        sprite.width == sprite_width(b),
        sprite.height == sprite_height(b),
        shows(sprite, b, |x: int, y: int| colour_at(rects, rects.len() as int, x, y)),
        0 <= i < rects.len(),
        rect_covers(rects[i], x, y),
        forall|k: int| i < k < rects.len() ==> !rect_covers(#[trigger] rects[k], x, y),
    ensures
        ({
            let u = x - b.min_x + 1;
            let v = y - b.min_y + 1;
            sprite.channel(u, v, 3) * 0x100_0000 + sprite.channel(u, v, 0) * 0x10000
                + sprite.channel(u, v, 1) * 0x100 + sprite.channel(u, v, 2) == rects[i].pixel
        }),
{
    lemma_hull_contains(rects);
    lemma_last_shows(rects, rects.len() as int, i, x, y);
    let u = x - b.min_x + 1;
    let v = y - b.min_y + 1;
    let p = rects[i].pixel;
    assert(0 <= u < sprite.width && 0 <= v < sprite.height);
    assert(u + b.min_x - 1 == x && v + b.min_y - 1 == y);
    assert(sprite.channel(u, v, 0) == colour_byte(p, 0));
    assert(sprite.channel(u, v, 1) == colour_byte(p, 1));
    assert(sprite.channel(u, v, 2) == colour_byte(p, 2));
    assert(sprite.channel(u, v, 3) == colour_byte(p, 3));
    assert(p / 0x10000 % 0x100 + p / 0x100_0000 * 0x100 == p / 0x10000);
    assert(p / 0x100 % 0x100 + p / 0x10000 * 0x100 == p / 0x100);
    assert(p % 0x100 + p / 0x100 * 0x100 == p);
}

/// A position of the sprite that no rectangle covers is left transparent.
pub proof fn law_free_positions_are_clear(
    rects: Seq<GlyphRect>,
    sprite: RgbaImage,
    b: InkBox,
    u: int,
    v: int,
    c: int,
)
    requires
        shows(sprite, b, |x: int, y: int| colour_at(rects, rects.len() as int, x, y)),
        0 <= u < sprite.width,
        0 <= v < sprite.height,
        0 <= c < 4,
        forall|k: int|
            0 <= k < rects.len() ==> !(rects[k].x <= u - 1 + b.min_x < (#[trigger] rects[k]).x
                + rects[k].w && rects[k].y <= v - 1 + b.min_y < rects[k].y + rects[k].h),
    ensures
        sprite.channel(u, v, c) == 0,
{
    let x = u + b.min_x - 1;
    let y = v + b.min_y - 1;
    assert forall|k: int| -1 < k < rects.len() implies !rect_covers(#[trigger] rects[k], x, y) by {}
    if rects.len() > 0 {
        lemma_last_shows(rects, rects.len() as int, -1, x, y);
    }
    assert(sprite.channel(u, v, c) == byte_of(colour_at(rects, rects.len() as int, x, y), c));
}

/// A font goes by the first of its family names, whatever other names it has, and by its PostScript
/// name only if it has none.
pub proof fn law_first_family_names(first: Seq<char>, others: Seq<Seq<char>>, post_script: Seq<char>)
    ensures
        name_of(seq![first] + others, post_script) == first,
        name_of(Seq::empty(), post_script) == post_script,
{
}

} // verus!
