//! Overlay of Bilibili danmaku (bullet comments) onto video frames.

pub mod arith;
pub mod audio;
pub mod danmaku;
pub mod danmaku_laws;
pub mod decoder;
pub mod document;
pub mod double;
pub mod duration;
pub mod encoder;
pub mod encoding;
pub mod fonts;
pub mod growable;
pub mod hw;
pub mod i18n;
pub mod json;
pub mod layout;
pub mod layout_laws;
pub mod markup;
pub mod options;
pub mod pattern;
pub mod progress;
pub mod rails;
pub mod raster;
pub mod rounding;
pub mod schedule;
pub mod single;
pub mod stage;
pub mod stage_laws;
pub mod text;
pub mod timeline;
pub mod web;
pub mod workflow;
pub mod xml;
