//! Danmaku: what a bullet comment says, and how it is to be shown.

use crate::double::{parse_double, truncated, written_double, Double, ONE_BITS};
use crate::duration::{span_of, Duration, MAX_NANOS};
use crate::encoding::cow_u8_to_str;
use crate::json::{item_views, json_array, parse_json_array, JsonItem, JsonView};
use crate::raster::{decode_rgb, rgb_of, Rgb};
use crate::text::{chars_of, fields, parse_unsigned, split, string_of, texts, unsigned};
use crate::xml::{unescape_xml, xml_unescaped};
use std::borrow::Cow;
use vstd::prelude::*;
use vstd::string::*;
use vstd::utf8::{decode_utf8, valid_utf8};

verus! {

/// One bullet comment.
#[derive(Clone, Debug)]
pub struct Danmaku {
    /// When it appears.
    pub time: Duration,
    pub mode: DanmakuMode,
    pub font_size: usize,
    pub color: Rgb,
    pub text: String,
}

/// How a bullet comment moves across the frame.
#[derive(Clone, Debug)]
pub enum DanmakuMode {
    /// From right to left.
    Scroll,
    /// Fixed at the bottom.
    Bottom,
    /// Fixed at the top.
    Top,
    /// From left to right.
    Reverse,
    /// Along a path of its own. Read, but not shown.
    Advance {
        x: Double,
        y: Double,
        gradient: OpacityGradient,
        duration: Duration,
        end_x: Double,
        end_y: Double,
        z_rotate: Double,
        y_rotate: Double,
        move_duration: Duration,
        move_delay: Duration,
        stroke: bool,
        font_family: String,
        linear_speed_up: bool,
    },
    /// Scripted. Shown like one that is fixed at the bottom.
    Bas,
}

/// How opaque an advanced bullet comment is when it appears and when it leaves.
#[derive(Clone, Copy, Debug)]
pub struct OpacityGradient {
    pub start: Double,
    pub end: Double,
}

impl DanmakuMode {
    /// The mode that a mode number stands for.
    pub fn from_id(id: usize) -> (mode: Option<Self>)
        ensures
            mode == if 1 <= id <= 3 {
                Some(DanmakuMode::Scroll)
            } else if id == 4 {
                Some(DanmakuMode::Bottom)
            } else if id == 5 {
                Some(DanmakuMode::Top)
            } else if id == 6 {
                Some(DanmakuMode::Reverse)
            } else if id == 9 {
                Some(DanmakuMode::Bas)
            } else {
                None
            },
    {
        match id {
            1..=3 => Some(DanmakuMode::Scroll),
            4 => Some(DanmakuMode::Bottom),
            5 => Some(DanmakuMode::Top),
            6 => Some(DanmakuMode::Reverse),
            9 => Some(DanmakuMode::Bas),
            _ => None,
        }
    }
}

impl OpacityGradient {
    /// A gradient from `start` to `end`.
    pub fn new(start: Double, end: Double) -> (g: Self)
        ensures
            g.start == start,
            g.end == end,
    {
        OpacityGradient { start, end }
    }
}

/// What a [`Danmaku`] says.
pub struct DanmakuView {
    pub time: Duration,
    pub mode: ModeView,
    pub font_size: usize,
    pub color: Rgb,
    pub text: Seq<char>,
}

/// What a [`DanmakuMode`] says.
pub enum ModeView {
    Scroll,
    Bottom,
    Top,
    Reverse,
    Advance {
        x: Double,
        y: Double,
        gradient: OpacityGradient,
        duration: Duration,
        end_x: Double,
        end_y: Double,
        z_rotate: Double,
        y_rotate: Double,
        move_duration: Duration,
        move_delay: Duration,
        stroke: bool,
        font_family: Seq<char>,
        linear_speed_up: bool,
    },
    Bas,
}

impl View for DanmakuMode {
    type V = ModeView;

    open spec fn view(&self) -> ModeView {
        match *self {
            DanmakuMode::Scroll => ModeView::Scroll,
            DanmakuMode::Bottom => ModeView::Bottom,
            DanmakuMode::Top => ModeView::Top,
            DanmakuMode::Reverse => ModeView::Reverse,
            DanmakuMode::Advance {
                x,
                y,
                gradient,
                duration,
                end_x,
                end_y,
                z_rotate,
                y_rotate,
                move_duration,
                move_delay,
                stroke,
                font_family,
                linear_speed_up,
            } => ModeView::Advance {
                x,
                y,
                gradient,
                duration,
                end_x,
                end_y,
                z_rotate,
                y_rotate,
                move_duration,
                move_delay,
                stroke,
                font_family: font_family@,
                linear_speed_up,
            },
            DanmakuMode::Bas => ModeView::Bas,
        }
    }
}

impl View for Danmaku {
    type V = DanmakuView;

    open spec fn view(&self) -> DanmakuView {
        DanmakuView {
            time: self.time,
            mode: self.mode@,
            font_size: self.font_size,
            color: self.color,
            text: self.text@,
        }
    }
}

/// Why a bullet comment cannot be read.
#[derive(Clone, Copy, Debug, PartialEq, Eq, Structural)]
pub enum DanmakuFault {
    /// The time is not a number.
    BadTime,
    /// A time is negative, not finite, or longer than a timeline.
    TimeOutOfRange,
    /// There is no mode.
    NoMode,
    /// The mode is not a whole number.
    BadMode,
    /// There is no font size.
    NoFontSize,
    /// The font size is not a whole number.
    BadFontSize,
    /// There is no colour.
    NoColor,
    /// The colour is not a whole number.
    BadColor,
    /// The text is not UTF-8.
    NotUtf8,
    /// The text of an advanced comment is not a JSON array.
    BadJson,
    /// The text holds a reference that cannot be resolved.
    BadReference,
}

/// Why a bullet comment cannot be read, where, and what the reader of that part had to say.
#[derive(Debug)]
pub struct DanmakuError {
    pub fault: DanmakuFault,
    pub text: String,
    pub detail: String,
}

/// What a [`DanmakuError`] says.
pub struct ErrorView {
    pub fault: DanmakuFault,
    pub text: Seq<char>,
    pub detail: Seq<char>,
}

impl View for DanmakuError {
    type V = ErrorView;

    open spec fn view(&self) -> ErrorView {
        ErrorView { fault: self.fault, text: self.text@, detail: self.detail@ }
    }
}

/// What comes of reading a bullet comment: one to show, none for a mode that is not known, or an
/// error.
pub type Reading = Result<Option<DanmakuView>, ErrorView>;

/// What a reading says.
pub open spec fn reading_view(r: Result<Option<Danmaku>, DanmakuError>) -> Reading {
    match r {
        Ok(Some(d)) => Ok(Some(d@)),
        Ok(None) => Ok(None),
        Err(e) => Err(e@),
    }
}

pub open spec fn refusal(fault: DanmakuFault, text: Seq<char>) -> ErrorView {
    ErrorView { fault, text, detail: Seq::empty() }
}

/// What the attribute of a bullet comment says of its looks.
#[derive(Clone, Copy, Debug)]
pub struct Style {
    pub time: Duration,
    pub mode_id: usize,
    pub font_size: usize,
    pub color: Rgb,
}

/// The style that the fields of an attribute write, where `time` is the number that the first of
/// them writes: a time in seconds, a mode, a font size, a colour, and more that is not read.
pub open spec fn style_of(parts: Seq<Seq<char>>, time: Option<Double>) -> Result<
    Style,
    ErrorView,
> {
    if time is None {
        Err(refusal(DanmakuFault::BadTime, parts[0]))
    } else if span_of(time->0) is None {
        Err(refusal(DanmakuFault::TimeOutOfRange, parts[0]))
    } else if parts.len() < 2 {
        Err(refusal(DanmakuFault::NoMode, Seq::empty()))
    } else if unsigned(parts[1], usize::MAX as nat) is None {
        Err(refusal(DanmakuFault::BadMode, parts[1]))
    } else if parts.len() < 3 {
        Err(refusal(DanmakuFault::NoFontSize, Seq::empty()))
    } else if unsigned(parts[2], usize::MAX as nat) is None {
        Err(refusal(DanmakuFault::BadFontSize, parts[2]))
    } else if parts.len() < 4 {
        Err(refusal(DanmakuFault::NoColor, Seq::empty()))
    } else if unsigned(parts[3], u32::MAX as nat) is None {
        Err(refusal(DanmakuFault::BadColor, parts[3]))
    } else {
        Ok(
            Style {
                time: span_of(time->0)->0,
                mode_id: unsigned(parts[1], usize::MAX as nat)->0 as usize,
                font_size: unsigned(parts[2], usize::MAX as nat)->0 as usize,
                color: rgb_of(unsigned(parts[3], u32::MAX as nat)->0 as u32),
            },
        )
    }
}

fn refuse(fault: DanmakuFault, text: &str) -> (e: DanmakuError)
    ensures
        e@ == refusal(fault, text@),
{
    DanmakuError { fault, text: text.to_owned(), detail: String::new() }
}

/// Reads the fields of an attribute, where `time` is the number that the first of them writes.
pub fn read_style(parts: &Vec<String>, time: Option<Double>) -> (style: Result<
    Style,
    DanmakuError,
>)
    requires
        parts@.len() >= 1,
    ensures
        match style {
            Ok(s) => style_of(texts(parts@), time) == Ok::<Style, ErrorView>(s),
            Err(e) => style_of(texts(parts@), time) == Err::<Style, ErrorView>(e@),
        },
        style is Ok ==> style->Ok_0.time.nanos <= MAX_NANOS,
{
    let time = match time {
        Some(secs) => match Duration::try_from_secs(secs) {
            Some(time) => time,
            None => {
                return Err(refuse(DanmakuFault::TimeOutOfRange, parts[0].as_str()));
            },
        },
        None => {
            return Err(refuse(DanmakuFault::BadTime, parts[0].as_str()));
        },
    };
    if parts.len() < 2 {
        return Err(DanmakuError {
            fault: DanmakuFault::NoMode,
            text: String::new(),
            detail: String::new(),
        });
    }
    let mode_id = match parse_unsigned(parts[1].as_str(), usize::MAX as u64) {
        Some(n) => n as usize,
        None => {
            return Err(refuse(DanmakuFault::BadMode, parts[1].as_str()));
        },
    };
    if parts.len() < 3 {
        return Err(DanmakuError {
            fault: DanmakuFault::NoFontSize,
            text: String::new(),
            detail: String::new(),
        });
    }
    let font_size = match parse_unsigned(parts[2].as_str(), usize::MAX as u64) {
        Some(n) => n as usize,
        None => {
            return Err(refuse(DanmakuFault::BadFontSize, parts[2].as_str()));
        },
    };
    if parts.len() < 4 {
        return Err(DanmakuError {
            fault: DanmakuFault::NoColor,
            text: String::new(),
            detail: String::new(),
        });
    }
    let color = match parse_unsigned(parts[3].as_str(), u32::MAX as u64) {
        Some(n) => decode_rgb(n as u32),
        None => {
            return Err(refuse(DanmakuFault::BadColor, parts[3].as_str()));
        },
    };
    Ok(Style { time, mode_id, font_size, color })
}

/// The mode that a mode number stands for, if it stands for one that is not advanced.
pub open spec fn mode_of(id: int) -> Option<ModeView> {
    if 1 <= id <= 3 {
        Some(ModeView::Scroll)
    } else if id == 4 {
        Some(ModeView::Bottom)
    } else if id == 5 {
        Some(ModeView::Top)
    } else if id == 6 {
        Some(ModeView::Reverse)
    } else if id == 9 {
        Some(ModeView::Bas)
    } else {
        None
    }
}

/// What comes of a bullet comment that is not advanced, whose text, with its references resolved,
/// is `text`.
pub open spec fn ordinary(style: Style, raw: Seq<char>, text: Result<Seq<char>, Seq<char>>) -> Reading {
    match text {
        Err(detail) => Err(ErrorView { fault: DanmakuFault::BadReference, text: raw, detail }),
        Ok(text) => match mode_of(style.mode_id as int) {
            Some(mode) => Ok(
                Some(
                    DanmakuView {
                        time: style.time,
                        mode,
                        font_size: style.font_size,
                        color: style.color,
                        text,
                    },
                ),
            ),
            None => Ok(None),
        },
    }
}

/// What an outcome with texts says.
pub open spec fn text_view(r: Result<String, String>) -> Result<Seq<char>, Seq<char>> {
    match r {
        Ok(t) => Ok(t@),
        Err(m) => Err(m@),
    }
}

/// Puts a bullet comment that is not advanced together.
pub fn read_ordinary(style: Style, raw: &str, text: Result<String, String>) -> (d: Result<
    Option<Danmaku>,
    DanmakuError,
>)
    ensures
        reading_view(d) == ordinary(style, raw@, text_view(text)),
{
    match text {
        Err(detail) => Err(
            DanmakuError { fault: DanmakuFault::BadReference, text: raw.to_owned(), detail },
        ),
        Ok(text) => match DanmakuMode::from_id(style.mode_id) {
            Some(mode) => Ok(
                Some(
                    Danmaku {
                        time: style.time,
                        mode,
                        font_size: style.font_size,
                        color: style.color,
                        text,
                    },
                ),
            ),
            None => Ok(None),
        },
    }
}

/// The number at `i` of the values of an advanced comment; zero if there is none.
pub open spec fn number_at(items: Seq<JsonView>, i: int) -> Double {
    match float_at(items, i) {
        Some(d) => d,
        None => Double { bits: 0 },
    }
}

pub open spec fn float_at(items: Seq<JsonView>, i: int) -> Option<Double> {
    if i < items.len() {
        items[i].float
    } else {
        None
    }
}

/// The span of so many milliseconds as stand at `i`, cut off to whole ones; none if nothing does.
pub open spec fn millis_at(items: Seq<JsonView>, i: int) -> Duration {
    match float_at(items, i) {
        Some(d) => Duration { nanos: (truncated(d) * 1_000_000) as u128 },
        None => Duration { nanos: 0 },
    }
}

/// Whether a whole number other than zero stands at `i`.
pub open spec fn flag_at(items: Seq<JsonView>, i: int) -> bool {
    i < items.len() && items[i].whole is Some && items[i].whole->0 != 0
}

pub open spec fn text_at(items: Seq<JsonView>, i: int) -> Option<Seq<char>> {
    if i < items.len() {
        items[i].text
    } else {
        None
    }
}

/// The text at `i`; the empty one if there is none.
pub open spec fn text_or_empty(items: Seq<JsonView>, i: int) -> Seq<char> {
    match text_at(items, i) {
        Some(t) => t,
        None => Seq::empty(),
    }
}

/// The gradient from `start` to `end`, or the fully opaque one if one of the two is missing.
pub open spec fn gradient_of(start: Option<Double>, end: Option<Double>) -> OpacityGradient {
    if start is Some && end is Some {
        OpacityGradient { start: start->0, end: end->0 }
    } else {
        OpacityGradient { start: Double { bits: ONE_BITS }, end: Double { bits: ONE_BITS } }
    }
}

/// The gradient that the value at 2 of an advanced comment writes: two numbers with a hyphen between
/// them.
pub open spec fn gradient_at(items: Seq<JsonView>) -> OpacityGradient {
    match text_at(items, 2) {
        Some(t) => {
            let parts = fields(t, '-');
            if parts.len() == 2 {
                gradient_of(written_double(parts[0]), written_double(parts[1]))
            } else {
                gradient_of(None, None)
            }
        },
        None => gradient_of(None, None),
    }
}

/// What comes of an advanced bullet comment with the given values, whose gradient is `gradient` and
/// whose text, with its references resolved, is `text`.
pub open spec fn advanced(
    style: Style,
    items: Seq<JsonView>,
    gradient: OpacityGradient,
    text: Result<Seq<char>, Seq<char>>,
) -> Reading {
    let span = match float_at(items, 3) {
        Some(d) => span_of(d),
        None => Some(Duration { nanos: 0 }),
    };
    match (span, text) {
        (None, _) => Err(refusal(DanmakuFault::TimeOutOfRange, Seq::empty())),
        (_, Err(detail)) => Err(
            ErrorView {
                fault: DanmakuFault::BadReference,
                text: text_or_empty(items, 4),
                detail,
            },
        ),
        (Some(duration), Ok(text)) => Ok(
            Some(
                DanmakuView {
                    time: style.time,
                    mode: ModeView::Advance {
                        x: number_at(items, 0),
                        y: number_at(items, 1),
                        gradient,
                        duration,
                        end_x: number_at(items, 7),
                        end_y: number_at(items, 8),
                        z_rotate: number_at(items, 5),
                        y_rotate: number_at(items, 6),
                        move_duration: millis_at(items, 9),
                        move_delay: millis_at(items, 10),
                        stroke: flag_at(items, 11),
                        font_family: text_or_empty(items, 12),
                        linear_speed_up: flag_at(items, 13),
                    },
                    font_size: style.font_size,
                    color: style.color,
                    text,
                },
            ),
        ),
    }
}

fn get_float(items: &Vec<JsonItem>, i: usize) -> (d: Option<Double>)
    ensures
        d == float_at(item_views(items@), i as int),
{
    if i < items.len() {
        items[i].float
    } else {
        None
    }
}

fn get_number(items: &Vec<JsonItem>, i: usize) -> (d: Double)
    ensures
        d == number_at(item_views(items@), i as int),
{
    match get_float(items, i) {
        Some(d) => d,
        None => Double { bits: 0 },
    }
}

fn get_millis(items: &Vec<JsonItem>, i: usize) -> (d: Duration)
    ensures
        d == millis_at(item_views(items@), i as int),
{
    match get_float(items, i) {
        Some(d) => Duration::from_millis(d.to_u64_saturating()),
        None => Duration::zero(),
    }
}

fn get_flag(items: &Vec<JsonItem>, i: usize) -> (b: bool)
    ensures
        b == flag_at(item_views(items@), i as int),
{
    if i < items.len() {
        match items[i].whole {
            Some(n) => n != 0,
            None => false,
        }
    } else {
        false
    }
}

fn get_text(items: &Vec<JsonItem>, i: usize) -> (t: Option<String>)
    ensures
        match t {
            Some(t) => text_at(item_views(items@), i as int) == Some(t@),
            None => text_at(item_views(items@), i as int) is None,
        },
{
    if i < items.len() {
        match &items[i].text {
            Some(t) => Some(t.clone()),
            None => None,
        }
    } else {
        None
    }
}

fn get_text_or_empty(items: &Vec<JsonItem>, i: usize) -> (t: String)
    ensures
        t@ == text_or_empty(item_views(items@), i as int),
{
    match get_text(items, i) {
        Some(t) => t,
        None => String::new(),
    }
}

/// The gradient from `start` to `end`, or the fully opaque one if one of the two is missing.
pub fn make_gradient(start: Option<Double>, end: Option<Double>) -> (g: OpacityGradient)
    ensures
        g == gradient_of(start, end),
{
    match (start, end) {
        (Some(start), Some(end)) => OpacityGradient::new(start, end),
        _ => OpacityGradient::new(Double { bits: ONE_BITS }, Double { bits: ONE_BITS }),
    }
}

/// Reads the gradient of an advanced comment.
pub fn read_gradient(items: &Vec<JsonItem>) -> (g: OpacityGradient)
    ensures
        g == gradient_at(item_views(items@)),
{
    match get_text(items, 2) {
        Some(t) => {
            let parts = split(t.as_str(), '-');
            let ghost views = texts(parts@);
            if parts.len() == 2 {
                assert(views[0] == parts@[0]@ && views[1] == parts@[1]@);
                make_gradient(parse_double(parts[0].as_str()), parse_double(parts[1].as_str()))
            } else {
                make_gradient(None, None)
            }
        },
        None => make_gradient(None, None),
    }
}

/// Puts an advanced bullet comment together.
pub fn read_advanced(
    style: Style,
    items: &Vec<JsonItem>,
    gradient: OpacityGradient,
    text: Result<String, String>,
) -> (d: Result<Option<Danmaku>, DanmakuError>)
    ensures
        reading_view(d) == advanced(style, item_views(items@), gradient, text_view(text)),
{
    let duration = match get_float(items, 3) {
        Some(secs) => match Duration::try_from_secs(secs) {
            Some(d) => d,
            None => {
                return Err(
                    DanmakuError {
                        fault: DanmakuFault::TimeOutOfRange,
                        text: String::new(),
                        detail: String::new(),
                    },
                );
            },
        },
        None => Duration::zero(),
    };
    let text = match text {
        Ok(text) => text,
        Err(detail) => {
            return Err(
                DanmakuError {
                    fault: DanmakuFault::BadReference,
                    text: get_text_or_empty(items, 4),
                    detail,
                },
            );
        },
    };
    Ok(
        Some(
            Danmaku {
                time: style.time,
                mode: DanmakuMode::Advance {
                    x: get_number(items, 0),
                    y: get_number(items, 1),
                    gradient,
                    duration,
                    end_x: get_number(items, 7),
                    end_y: get_number(items, 8),
                    z_rotate: get_number(items, 5),
                    y_rotate: get_number(items, 6),
                    move_duration: get_millis(items, 9),
                    move_delay: get_millis(items, 10),
                    stroke: get_flag(items, 11),
                    font_family: get_text_or_empty(items, 12),
                    linear_speed_up: get_flag(items, 13),
                },
                font_size: style.font_size,
                color: style.color,
                text,
            },
        ),
    )
}

/// The first characters of a text, `n` of them at most.
pub open spec fn head(s: Seq<char>, n: int) -> Seq<char> {
    if s.len() <= n {
        s
    } else {
        s.take(n)
    }
}

/// Cuts a text off after `n` characters.
pub(crate) fn head_of(s: &str, n: usize) -> (h: String)
    ensures
        h@ == head(s@, n as int),
{
    let mut chars = chars_of(s);
    if chars.len() > n {
        chars.truncate(n);
    }
    string_of(&chars)
}

/// What comes of reading a bullet comment from its attribute and its content.
pub open spec fn danmaku_of(styles: Seq<char>, content: Seq<u8>) -> Reading {
    let parts = fields(styles, ',');
    match style_of(parts, written_double(parts[0])) {
        Err(e) => Err(e),
        Ok(style) => if !valid_utf8(content) {
            Err(refusal(DanmakuFault::NotUtf8, Seq::empty()))
        } else if style.mode_id == 7 {
            match json_array(decode_utf8(content)) {
                Err(detail) => Err(
                    ErrorView {
                        fault: DanmakuFault::BadJson,
                        text: head(decode_utf8(content), 80),
                        detail,
                    },
                ),
                Ok(items) => advanced(
                    style,
                    items,
                    gradient_at(items),
                    xml_unescaped(text_or_empty(items, 4)),
                ),
            }
        } else {
            ordinary(style, decode_utf8(content), xml_unescaped(decode_utf8(content)))
        },
    }
}

impl Danmaku {
    /// Reads a bullet comment from its attribute and its content: `None` for a mode that is not
    /// known. A time that cannot be put on a timeline is an error.
    pub fn new(styles: Cow<'_, str>, content: Cow<'_, [u8]>) -> (d: Result<
        Option<Self>,
        DanmakuError,
    >)
        ensures
            reading_view(d) == danmaku_of(styles@, content@),
            d matches Ok(Some(danmaku)) ==> danmaku.time.nanos <= MAX_NANOS,
    {
        let parts = match &styles {
            Cow::Borrowed(s) => split(s, ','),
            Cow::Owned(s) => split(s.as_str(), ','),
        };
        assert(texts(parts@)[0] == parts@[0]@);
        let time = parse_double(parts[0].as_str());
        let style = match read_style(&parts, time) {
            Ok(style) => style,
            Err(e) => {
                return Err(e);
            },
        };
        let content = match cow_u8_to_str(content) {
            Ok(Cow::Borrowed(s)) => s.to_owned(),
            Ok(Cow::Owned(s)) => s,
            Err(_) => {
                return Err(
                    DanmakuError {
                        fault: DanmakuFault::NotUtf8,
                        text: String::new(),
                        detail: String::new(),
                    },
                );
            },
        };
        if style.mode_id == 7 {
            match parse_json_array(content.as_str()) {
                Ok(items) => {
                    let gradient = read_gradient(&items);
                    let text = unescape_xml(get_text_or_empty(&items, 4).as_str());
                    read_advanced(style, &items, gradient, text)
                },
                Err(detail) => Err(
                    DanmakuError {
                        fault: DanmakuFault::BadJson,
                        text: head_of(content.as_str(), 80),
                        detail,
                    },
                ),
            }
        } else {
            let text = unescape_xml(content.as_str());
            read_ordinary(style, content.as_str(), text)
        }
    }
}

} // verus!
