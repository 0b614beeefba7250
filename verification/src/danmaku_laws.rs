//! What is written of a bullet comment, and what is read of it.

use crate::danmaku::{danmaku_of, gradient_at, style_of, ModeView};
use crate::double::{written_double, Double, ONE_BITS};
use crate::duration::span_of;
use crate::json::{json_array, JsonView};
use crate::raster::{law_colour_packs_back, Rgb};
use crate::text::{
    decimal, fields, law_fields_of_joined, law_written_number_reads_back,
    lemma_decimal_holds_no_separator, lemma_one_field, unsigned,
};
use crate::xml::xml_unescaped;
use vstd::prelude::*;
use vstd::utf8::{decode_utf8, valid_utf8};

verus! {

/// The attribute of a bullet comment: a time in seconds, a mode, a font size and a colour number,
/// with commas between them, and `more`, which stands behind another comma if there is any.
pub open spec fn written_style(
    time: Seq<char>,
    mode: nat,
    font_size: nat,
    colour: nat,
    more: Option<Seq<char>>,
) -> Seq<char> {
    let four = time.push(',') + (decimal(mode).push(',') + (decimal(font_size).push(',') + decimal(
        colour,
    )));
    match more {
        Some(rest) => four.push(',') + rest,
        None => four,
    }
}

/// The number of a colour: its red, green and blue, from the high end to the low.
pub open spec fn colour_number(colour: Rgb) -> int {
    let Rgb(bytes) = colour;
    bytes@[0] * 0x10000 + bytes@[1] * 0x100 + bytes@[2]
}

/// The fields of a written attribute are what it was written of.
proof fn lemma_written_fields(
    time: Seq<char>,
    mode: nat,
    font_size: nat,
    colour: nat,
    more: Option<Seq<char>>,
)
    requires
        !time.contains(','),
    ensures
        ({
            let parts = fields(written_style(time, mode, font_size, colour, more), ',');
            &&& parts.len() >= 4
            &&& parts[0] == time
            &&& parts[1] == decimal(mode)
            &&& parts[2] == decimal(font_size)
            &&& parts[3] == decimal(colour)
        }),
{
    let m = decimal(mode);
    let n = decimal(font_size);
    let c = decimal(colour);
    let tail = n.push(',') + c;
    let three = m.push(',') + tail;
    let four = time.push(',') + three;
    lemma_decimal_holds_no_separator(mode, ',');
    lemma_decimal_holds_no_separator(font_size, ',');
    lemma_decimal_holds_no_separator(colour, ',');
    lemma_one_field(time, ',');
    lemma_one_field(m, ',');
    lemma_one_field(n, ',');
    lemma_one_field(c, ',');
    law_fields_of_joined(n, c, ',');
    law_fields_of_joined(m, tail, ',');
    law_fields_of_joined(time, three, ',');
    let parts = fields(four, ',');
    assert(parts == seq![time] + (seq![m] + (seq![n] + seq![c])));
    assert(parts.len() == 4);
    assert(parts[0] == time && parts[1] == m && parts[2] == n && parts[3] == c);
    if let Some(rest) = more {
        law_fields_of_joined(four, rest, ',');
    }
}

/// What is written in an attribute is read from it: the time, the mode, the font size and the colour,
/// each from its own field, whatever follows them.
pub proof fn law_style_reads_back(
    time: Seq<char>,
    mode: nat,
    font_size: nat,
    colour: nat,
    more: Option<Seq<char>>,
)
    requires
        !time.contains(','),
        written_double(time) is Some,
        span_of(written_double(time)->0) is Some,
        mode <= usize::MAX,
        font_size <= usize::MAX,
        colour <= u32::MAX,
    ensures
        ({
            let parts = fields(written_style(time, mode, font_size, colour, more), ',');
            match style_of(parts, written_double(parts[0])) {
                Ok(style) => {
                    &&& Some(style.time) == span_of(written_double(time)->0)
                    &&& style.mode_id == mode
                    &&& style.font_size == font_size
                    &&& colour_number(style.color) == colour % 0x100_0000
                },
                Err(_) => false,
            }
        }),
{
    lemma_written_fields(time, mode, font_size, colour, more);
    law_written_number_reads_back(mode, usize::MAX as nat);
    law_written_number_reads_back(font_size, usize::MAX as nat);
    law_written_number_reads_back(colour, u32::MAX as nat);
    law_colour_packs_back(colour as u32);
}

/// A bullet comment is read as it is written: when it comes, how large and in what colour, what it
/// says, and how it moves: modes one to three scroll, four is fixed at the bottom, five at the top,
/// six scrolls back and nine is scripted. Any other mode but the advanced one is passed over.
pub proof fn law_comment_reads_back(
    time: Seq<char>,
    mode: nat,
    font_size: nat,
    colour: nat,
    more: Option<Seq<char>>,
    content: Seq<u8>,
)
    requires
        !time.contains(','),
        written_double(time) is Some,
        span_of(written_double(time)->0) is Some,
        mode <= usize::MAX,
        mode != 7,
        font_size <= usize::MAX,
        colour <= u32::MAX,
        valid_utf8(content),
        xml_unescaped(decode_utf8(content)) is Ok,
    ensures
        match danmaku_of(written_style(time, mode, font_size, colour, more), content) {
            Ok(Some(d)) => {
                &&& Some(d.time) == span_of(written_double(time)->0)
                &&& d.font_size == font_size
                &&& colour_number(d.color) == colour % 0x100_0000
                &&& Ok::<Seq<char>, Seq<char>>(d.text) == xml_unescaped(decode_utf8(content))
                &&& d.mode is Scroll <==> mode == 1 || mode == 2 || mode == 3
                &&& d.mode is Bottom <==> mode == 4
                &&& d.mode is Top <==> mode == 5
                &&& d.mode is Reverse <==> mode == 6
                &&& d.mode is Bas <==> mode == 9
                &&& !(d.mode is Advance)
            },
            Ok(None) => mode == 0 || mode == 8 || mode > 9,
            Err(_) => false,
        },
{
    lemma_written_fields(time, mode, font_size, colour, more);
    law_style_reads_back(time, mode, font_size, colour, more);
}

/// An advanced comment is read from the values of a JSON array, each from its own place: where it
/// starts and ends, how it turns, how opaque it is, how long it is shown and moves, what it says and
/// in what font.
pub proof fn law_advanced_comment_reads_back(
    time: Seq<char>,
    font_size: nat,
    colour: nat,
    more: Option<Seq<char>>,
    content: Seq<u8>,
    items: Seq<JsonView>,
)
    requires
        !time.contains(','),
        written_double(time) is Some,
        span_of(written_double(time)->0) is Some,
        font_size <= usize::MAX,
        colour <= u32::MAX,
        valid_utf8(content),
        json_array(decode_utf8(content)) == Ok::<Seq<JsonView>, Seq<char>>(items),
        items.len() >= 14,
        forall|i: int|
            #![trigger items[i]]
            (i == 0 || i == 1 || i == 3 || 5 <= i <= 10) ==> items[i].float is Some,
        items[4].text is Some,
        items[12].text is Some,
        items[11].whole is Some,
        items[13].whole is Some,
        span_of(items[3].float->0) is Some,
        xml_unescaped(items[4].text->0) is Ok,
    ensures
        match danmaku_of(written_style(time, 7, font_size, colour, more), content) {
            Ok(Some(d)) => {
                &&& Some(d.time) == span_of(written_double(time)->0)
                &&& d.font_size == font_size
                &&& colour_number(d.color) == colour % 0x100_0000
                &&& Ok::<Seq<char>, Seq<char>>(d.text) == xml_unescaped(items[4].text->0)
                &&& match d.mode {
                    ModeView::Advance {
                        x,
                        y,
                        gradient,
                        duration,
                        end_x,
                        end_y,
                        z_rotate,
                        y_rotate,
                        move_duration,
                        move_delay,
                        stroke,
                        font_family,
                        linear_speed_up,
                    } => {
                        &&& Some(x) == items[0].float
                        &&& Some(y) == items[1].float
                        &&& gradient == gradient_at(items)
                        &&& Some(duration) == span_of(items[3].float->0)
                        &&& Some(z_rotate) == items[5].float
                        &&& Some(y_rotate) == items[6].float
                        &&& Some(end_x) == items[7].float
                        &&& Some(end_y) == items[8].float
                        &&& move_duration.nanos == crate::double::truncated(items[9].float->0)
                            * 1_000_000
                        &&& move_delay.nanos == crate::double::truncated(items[10].float->0)
                            * 1_000_000
                        &&& stroke == (items[11].whole->0 != 0)
                        &&& Some(font_family) == items[12].text
                        &&& linear_speed_up == (items[13].whole->0 != 0)
                    },
                    _ => false,
                }
            },
            _ => false,
        },
{
    lemma_written_fields(time, 7, font_size, colour, more);
    law_style_reads_back(time, 7, font_size, colour, more);
    lemma_truncated_fits(items[9].float->0);
    lemma_truncated_fits(items[10].float->0);
}

proof fn lemma_truncated_fits(d: Double)
    ensures
        0 <= crate::double::truncated(d) <= u64::MAX,
{
    vstd::arithmetic::power2::lemma_pow2_pos(1074);
    if d.value() > 0 {
        vstd::arithmetic::div_mod::lemma_div_pos_is_pos(d.value(), crate::double::unit() as int);
    }
}

/// The opacity of an advanced comment goes from the one number to the other of two that are written
/// with a hyphen between them; it is full all along where they are not.
pub proof fn law_gradient_reads_back(items: Seq<JsonView>, start: Seq<char>, end: Seq<char>)
    requires
        items.len() > 2,
        items[2].text == Some(start.push('-') + end),
        !start.contains('-'),
        !end.contains('-'),
    ensures
        ({
            let g = gradient_at(items);
            if written_double(start) is Some && written_double(end) is Some {
                Some(g.start) == written_double(start) && Some(g.end) == written_double(end)
            } else {
                g.start.bits == ONE_BITS && g.end.bits == ONE_BITS
            }
        }),
{
    lemma_one_field(start, '-');
    lemma_one_field(end, '-');
    law_fields_of_joined(start, end, '-');
    let parts = fields(start.push('-') + end, '-');
    assert(parts == seq![start] + seq![end]);
    assert(parts[0] == start && parts[1] == end);
}

/// A comment whose time is not a number, or none that a timeline holds, is refused, and so is one
/// that lacks a field or does not write a whole number in it; the first of these that holds is told.
pub proof fn law_bad_fields_are_told(parts: Seq<Seq<char>>, time: Option<Double>)
    requires
        parts.len() >= 1,
    ensures
        match style_of(parts, time) {
            Ok(_) => time is Some && span_of(time->0) is Some && parts.len() >= 4,
            Err(e) => {
                &&& e.fault is BadTime <==> time is None
                &&& e.fault is TimeOutOfRange <==> time is Some && span_of(time->0) is None
                &&& e.fault is NoMode ==> parts.len() == 1
                &&& e.fault is NoFontSize ==> parts.len() == 2
                &&& e.fault is NoColor ==> parts.len() == 3
                &&& e.fault is BadMode ==> parts.len() >= 2 && e.text == parts[1]
                &&& e.fault is BadFontSize ==> parts.len() >= 3 && e.text == parts[2]
                &&& e.fault is BadColor ==> parts.len() >= 4 && e.text == parts[3]
                &&& parts.len() == 1 && time is Some && span_of(time->0) is Some ==> e.fault
                    is NoMode
            },
        },
{
}

/// Where a value of an advanced comment is missing or is of another kind, it is zero, off or empty;
/// its opacity is full where it is not written as text.
pub proof fn law_missing_values_are_none(
    time: Seq<char>,
    font_size: nat,
    colour: nat,
    more: Option<Seq<char>>,
    content: Seq<u8>,
    items: Seq<JsonView>,
)
    requires
        !time.contains(','),
        written_double(time) is Some,
        span_of(written_double(time)->0) is Some,
        font_size <= usize::MAX,
        colour <= u32::MAX,
        valid_utf8(content),
        json_array(decode_utf8(content)) == Ok::<Seq<JsonView>, Seq<char>>(items),
    ensures
        match danmaku_of(written_style(time, 7, font_size, colour, more), content) {
            Ok(Some(d)) => match d.mode {
                ModeView::Advance {
                    x,
                    y,
                    gradient,
                    duration,
                    end_x,
                    end_y,
                    z_rotate,
                    y_rotate,
                    move_duration,
                    move_delay,
                    stroke,
                    font_family,
                    linear_speed_up,
                } => {
                    &&& no_float(items, 0) ==> x.value() == 0
                    &&& no_float(items, 1) ==> y.value() == 0
                    &&& no_text(items, 2) ==> gradient.start.bits == ONE_BITS
                        && gradient.end.bits == ONE_BITS
                    &&& no_float(items, 3) ==> duration.nanos == 0
                    &&& no_float(items, 5) ==> z_rotate.value() == 0
                    &&& no_float(items, 6) ==> y_rotate.value() == 0
                    &&& no_float(items, 7) ==> end_x.value() == 0
                    &&& no_float(items, 8) ==> end_y.value() == 0
                    &&& no_float(items, 9) ==> move_duration.nanos == 0
                    &&& no_float(items, 10) ==> move_delay.nanos == 0
                    &&& items.len() <= 11 || items[11].whole is None ==> !stroke
                    &&& no_text(items, 12) ==> font_family.len() == 0
                    &&& items.len() <= 13 || items[13].whole is None ==> !linear_speed_up
                },
                _ => false,
            },
            Ok(None) => false,
            Err(e) => e.fault is TimeOutOfRange || e.fault is BadReference,
        },
{
    lemma_written_fields(time, 7, font_size, colour, more);
    law_style_reads_back(time, 7, font_size, colour, more);
    assert((Double { bits: 0 }).value() == 0);
}

/// There is no number at a place.
pub open spec fn no_float(items: Seq<JsonView>, i: int) -> bool {
    items.len() <= i || items[i].float is None
}

/// There is no text at a place.
pub open spec fn no_text(items: Seq<JsonView>, i: int) -> bool {
    items.len() <= i || items[i].text is None
}

/// A comment whose content cannot be read is refused, and told why: it is not UTF-8, an advanced one
/// is not a JSON array, or a reference in another one stands for nothing.
pub proof fn law_bad_content_is_told(
    time: Seq<char>,
    mode: nat,
    font_size: nat,
    colour: nat,
    more: Option<Seq<char>>,
    content: Seq<u8>,
)
    requires
        !time.contains(','),
        written_double(time) is Some,
        span_of(written_double(time)->0) is Some,
        mode <= usize::MAX,
        font_size <= usize::MAX,
        colour <= u32::MAX,
    ensures
        ({
            let reading = danmaku_of(written_style(time, mode, font_size, colour, more), content);
            let text = decode_utf8(content);
            &&& !valid_utf8(content) ==> reading is Err && reading->Err_0.fault is NotUtf8
            &&& valid_utf8(content) && mode == 7 && json_array(text) is Err ==> {
                &&& reading is Err
                &&& reading->Err_0.fault is BadJson
                &&& Err::<Seq<JsonView>, Seq<char>>(reading->Err_0.detail) == json_array(text)
                &&& reading->Err_0.text.is_prefix_of(text)
                &&& reading->Err_0.text.len() == if text.len() < 80 {
                    text.len() as int
                } else {
                    80
                }
            }
            &&& valid_utf8(content) && mode != 7 && xml_unescaped(text) is Err ==> {
                &&& reading is Err
                &&& reading->Err_0.fault is BadReference
                &&& reading->Err_0.text == text
                &&& Err::<Seq<char>, Seq<char>>(reading->Err_0.detail) == xml_unescaped(text)
            }
        }),
{
    lemma_written_fields(time, mode, font_size, colour, more);
    law_style_reads_back(time, mode, font_size, colour, more);
    let text = decode_utf8(content);
    let shown = crate::danmaku::head(text, 80);
    assert(shown == text.subrange(0, shown.len() as int));
}

/// The attribute of a comment is accepted exactly if its time is one that a timeline holds and three
/// whole numbers follow it that fit; otherwise the first field is told that is at fault.
pub proof fn law_first_bad_field_is_told(parts: Seq<Seq<char>>, time: Option<Double>)
    requires
        parts.len() >= 1,
    ensures
        ({
            let good_time = time is Some && span_of(time->0) is Some;
            let good_mode = good_time && parts.len() >= 2 && unsigned(parts[1], usize::MAX as nat)
                is Some;
            let good_size = good_mode && parts.len() >= 3 && unsigned(parts[2], usize::MAX as nat)
                is Some;
            let good_colour = good_size && parts.len() >= 4 && unsigned(parts[3], u32::MAX as nat)
                is Some;
            match style_of(parts, time) {
                Ok(_) => good_colour,
                Err(e) => {
                    &&& !good_colour
                    &&& !good_time <==> e.fault is BadTime || e.fault is TimeOutOfRange
                    &&& !good_time ==> e.text == parts[0]
                    &&& good_time && !good_mode <==> e.fault is NoMode || e.fault is BadMode
                    &&& good_mode && !good_size <==> e.fault is NoFontSize || e.fault is BadFontSize
                    &&& good_size && !good_colour <==> e.fault is NoColor || e.fault is BadColor
                },
            }
        }),
{
}

/// An opacity that is not written as two parts with one hyphen between them is full all along.
pub proof fn law_other_gradients_are_full(items: Seq<JsonView>, text: Seq<char>)
    requires
        items.len() > 2,
        items[2].text == Some(text),
        fields(text, '-').len() != 2,
    ensures
        gradient_at(items).start.bits == ONE_BITS,
        gradient_at(items).end.bits == ONE_BITS,
{
}

} // verus!
