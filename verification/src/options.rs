//! What the command line asks for, and what is checked of it before anything is done.

use crate::arith::{of_whole, product, sum};
use crate::double::{unit, Double};
use crate::hw::pref_of;
use crate::pattern::{match_all, regex_matches};
use crate::text::{cut, law_cut_at_first, split_once, str_eq, texts};
use crate::timeline::{parse_time_range, range_of, RangeError};
use vstd::prelude::*;
use vstd::string::*;

verus! {

/// The value of `--input` that stands for the standard input.
pub const STDIN: &'static str = ":STDIN:";

/// The value of `--output` that stands for the standard output.
pub const STDOUT: &'static str = ":STDOUT:";

/// A command line.
pub struct Cli {
    pub command: Commands,
}

/// What is to be done.
pub enum Commands {
    /// Overlay danmaku on a video, from a file or from the standard input.
    Overlay(OverlayArgs),
    /// Overlay danmaku on what a capture device sees.
    Capture(CaptureArgs),
    /// List the devices of a capture format.
    ListDevices(ListDevicesArgs),
}

/// How to overlay danmaku on a video.
pub struct OverlayArgs {
    pub input: String,
    pub output: Option<String>,
    pub range: Option<String>,
    pub render: RenderOptions,
}

/// How to overlay danmaku on what a capture device sees.
pub struct CaptureArgs {
    pub capture: String,
    pub range: String,
    pub output: String,
    pub render: RenderOptions,
}

/// Which capture format to list the devices of.
pub struct ListDevicesArgs {
    pub format: String,
}

/// Where the danmaku come from.
pub struct DanmakuSource {
    pub bvid: Option<String>,
    pub xml: Option<String>,
}

/// How to render.
pub struct RenderOptions {
    pub source: DanmakuSource,
    pub opacity: Double,
    pub top_ratio: Double,
    pub bottom_ratio: Double,
    /// A single-precision number.
    pub font_scale: Double,
    pub font: Vec<String>,
    pub system_fonts: bool,
    pub speed: u32,
    pub line_spacing: u32,
    pub min_space: u32,
    pub fixed_duration: Double,
    pub no_audio: bool,
    pub quiet: bool,
    pub encoder: String,
    pub x264_preset: String,
    pub longest: bool,
    pub filter: Option<Vec<String>>,
    pub audio: Option<String>,
    pub audio_range: Option<String>,
    pub lang: String,
}

/// What stands at a path.
#[derive(Clone, Copy, Debug, PartialEq, Eq, Structural)]
pub struct PathFacts {
    pub exists: bool,
    pub is_dir: bool,
}

/// What stands at the paths that rendering options name; where an option names none, the entry is
/// not read.
pub struct RenderFiles {
    pub xml: PathFacts,
    pub xml_extension: Option<String>,
    pub fonts: Vec<PathFacts>,
    pub audio: PathFacts,
}

/// Why a command line is refused.
#[derive(Clone, Copy, Debug, PartialEq, Eq, Structural)]
pub enum CheckError {
    InputMissing,
    InputIsDir,
    XmlMissing,
    XmlExtension,
    XmlIsDir,
    /// The opacity does not lie between zero and one.
    Opacity,
    /// One of the two ratios is not a number.
    RatioNotNumber,
    /// The lower edge does not lie below the upper one.
    RatioOrder,
    FontScale,
    /// The font file with this index, counted from zero, is missing.
    FontMissing(usize),
    /// What is given as the font file with this index, counted from zero, is a directory.
    FontIsDir(usize),
    Speed,
    Encoder,
    Preset,
    FixedDuration,
    /// Lines would have no height.
    LineHeight,
    AudioMissing,
    AudioIsDir,
    /// An audio file is given, and no audio is asked for.
    AudioConflict,
    /// The range of the audio cannot be read.
    AudioRange(RangeError),
    /// A range of the audio is given, and no audio is asked for.
    AudioRangeConflict,
    /// The range of the video cannot be read.
    Range(RangeError),
    /// The capture device has a format, but no URL.
    CaptureUrl,
}

/// The first of the font files, from `i` on, that cannot be used.
pub open spec fn font_fault(fonts: Seq<PathFacts>, i: int) -> Option<CheckError>
    decreases fonts.len() - i,
{
    if i >= fonts.len() {
        None
    } else if !fonts[i].exists {
        Some(CheckError::FontMissing(i as usize))
    } else if fonts[i].is_dir {
        Some(CheckError::FontIsDir(i as usize))
    } else {
        font_fault(fonts, i + 1)
    }
}

/// What is wrong with a danmaku file.
pub open spec fn xml_fault(facts: PathFacts, extension: Option<Seq<char>>) -> Option<CheckError> {
    if !facts.exists {
        Some(CheckError::XmlMissing)
    } else if extension != Some("xml"@) {
        Some(CheckError::XmlExtension)
    } else if facts.is_dir {
        Some(CheckError::XmlIsDir)
    } else {
        None
    }
}

/// A preset of the software encoder.
pub open spec fn is_preset(s: Seq<char>) -> bool {
    ||| s == "ultrafast"@
    ||| s == "superfast"@
    ||| s == "veryfast"@
    ||| s == "faster"@
    ||| s == "fast"@
    ||| s == "medium"@
    ||| s == "slow"@
    ||| s == "slower"@
    ||| s == "veryslow"@
}

fn known_preset(s: &str) -> (b: bool)
    ensures
        b == is_preset(s@),
{
    str_eq(s, "ultrafast") || str_eq(s, "superfast") || str_eq(s, "veryfast") || str_eq(s, "faster")
        || str_eq(s, "fast") || str_eq(s, "medium") || str_eq(s, "slow") || str_eq(s, "slower")
        || str_eq(s, "veryslow")
}

pub open spec fn zero() -> Double {
    Double { bits: 0 }
}

pub open spec fn one() -> Double {
    Double { bits: crate::double::ONE_BITS }
}

/// What is wrong with the looks of the danmaku.
pub open spec fn looks_fault(o: RenderOptions, fonts: Seq<PathFacts>) -> Option<CheckError> {
    if !(zero().at_most(o.opacity) && o.opacity.at_most(one())) {
        Some(CheckError::Opacity)
    } else if o.bottom_ratio.spec_is_nan() || o.top_ratio.spec_is_nan() {
        Some(CheckError::RatioNotNumber)
    } else if !o.top_ratio.below(o.bottom_ratio) {
        Some(CheckError::RatioOrder)
    } else if o.font_scale.at_most(zero()) {
        Some(CheckError::FontScale)
    } else if font_fault(fonts, 0) is Some {
        font_fault(fonts, 0)
    } else if o.speed == 0 {
        Some(CheckError::Speed)
    } else {
        None
    }
}

/// What is wrong with the way the video is to be encoded.
pub open spec fn encoding_fault(o: RenderOptions) -> Option<CheckError> {
    if pref_of(o.encoder@) is None {
        Some(CheckError::Encoder)
    } else if !is_preset(o.x264_preset@) {
        Some(CheckError::Preset)
    } else if o.fixed_duration.at_most(zero()) {
        Some(CheckError::FixedDuration)
    } else if sum(product(o.font_scale, of_whole(25)), of_whole(o.line_spacing as nat)).at_most(
        zero(),
    ) {
        Some(CheckError::LineHeight)
    } else {
        None
    }
}

/// What is wrong with the audio.
pub open spec fn audio_fault(o: RenderOptions, audio: PathFacts) -> Option<CheckError> {
    if o.audio is Some && !audio.exists {
        Some(CheckError::AudioMissing)
    } else if o.audio is Some && audio.is_dir {
        Some(CheckError::AudioIsDir)
    } else if o.audio is Some && o.no_audio {
        Some(CheckError::AudioConflict)
    } else {
        match o.audio_range {
            Some(range) => match range_of(range@) {
                Err(e) => Some(CheckError::AudioRange(e)),
                Ok(_) => if o.no_audio {
                    Some(CheckError::AudioRangeConflict)
                } else {
                    None
                },
            },
            None => None,
        }
    }
}

/// The first thing that is wrong with rendering options, where the paths that they name are as
/// `files` says.
pub open spec fn render_fault(o: RenderOptions, files: RenderFiles) -> Option<CheckError> {
    if o.source.xml is Some && xml_fault(files.xml, string_view(files.xml_extension)) is Some {
        xml_fault(files.xml, string_view(files.xml_extension))
    } else if looks_fault(o, files.fonts@) is Some {
        looks_fault(o, files.fonts@)
    } else if encoding_fault(o) is Some {
        encoding_fault(o)
    } else {
        audio_fault(o, files.audio)
    }
}

/// The outcome of a check that found `fault`.
pub open spec fn verdict_of(fault: Option<CheckError>) -> Result<(), CheckError> {
    match fault {
        Some(e) => Err(e),
        None => Ok(()),
    }
}

impl RenderOptions {
    /// Checks the options, where the paths that they name are as `files` says: one entry for every
    /// font file.
    pub fn check(&self, files: &RenderFiles) -> (r: Result<(), CheckError>)
        ensures
            r == verdict_of(render_fault(*self, *files)),
    {
        if self.source.xml.is_some() {
            if !files.xml.exists {
                return Err(CheckError::XmlMissing);
            }
            let is_xml = match &files.xml_extension {
                Some(e) => str_eq(e.as_str(), "xml"),
                None => false,
            };
            if !is_xml {
                return Err(CheckError::XmlExtension);
            }
            if files.xml.is_dir {
                return Err(CheckError::XmlIsDir);
            }
        }
        match self.check_looks(&files.fonts) {
            Ok(()) => {},
            Err(e) => {
                return Err(e);
            },
        }
        if crate::hw::EncoderPref::from_cli(self.encoder.as_str()).is_none() {
            return Err(CheckError::Encoder);
        }
        if !known_preset(self.x264_preset.as_str()) {
            return Err(CheckError::Preset);
        }
        if self.fixed_duration.le(Double::zero()) {
            return Err(CheckError::FixedDuration);
        }
        let height = self.font_scale.times(Double::from_u64(25)).plus(
            Double::from_u64(self.line_spacing as u64),
        );
        if height.le(Double::zero()) {
            return Err(CheckError::LineHeight);
        }
        self.check_audio(files.audio)
    }

    fn check_looks(&self, fonts: &Vec<PathFacts>) -> (r: Result<(), CheckError>)
        ensures
            r == verdict_of(looks_fault(*self, fonts@)),
    {
        if !(Double::zero().le(self.opacity) && self.opacity.le(Double::one())) {
            return Err(CheckError::Opacity);
        }
        if self.bottom_ratio.is_nan() || self.top_ratio.is_nan() {
            return Err(CheckError::RatioNotNumber);
        }
        if !self.top_ratio.lt(self.bottom_ratio) {
            return Err(CheckError::RatioOrder);
        }
        if self.font_scale.le(Double::zero()) {
            return Err(CheckError::FontScale);
        }
        let mut i: usize = 0;
        while i < fonts.len()
            invariant
                i <= fonts@.len(),
                font_fault(fonts@, 0) == font_fault(fonts@, i as int),
                looks_fault(*self, fonts@) == if font_fault(fonts@, 0) is Some {
                    font_fault(fonts@, 0)
                } else if self.speed == 0 {
                    Some(CheckError::Speed)
                } else {
                    None
                },
            decreases fonts@.len() - i,
        {
            if !fonts[i].exists {
                return Err(CheckError::FontMissing(i));
            }
            if fonts[i].is_dir {
                return Err(CheckError::FontIsDir(i));
            }
            i += 1;
        }
        if self.speed == 0 {
            return Err(CheckError::Speed);
        }
        Ok(())
    }

    fn check_audio(&self, audio: PathFacts) -> (r: Result<(), CheckError>)
        ensures
            r == verdict_of(audio_fault(*self, audio)),
    {
        if self.audio.is_some() {
            if !audio.exists {
                return Err(CheckError::AudioMissing);
            }
            if audio.is_dir {
                return Err(CheckError::AudioIsDir);
            }
            if self.no_audio {
                return Err(CheckError::AudioConflict);
            }
        }
        if let Some(range) = &self.audio_range {
            match parse_time_range(range.as_str()) {
                Ok(_) => {},
                Err(e) => {
                    return Err(CheckError::AudioRange(e));
                },
            }
            if self.no_audio {
                return Err(CheckError::AudioRangeConflict);
            }
        }
        Ok(())
    }
}

/// The first thing that is wrong with the arguments of an overlay, where the input and the paths
/// that the options name are as given.
pub open spec fn overlay_fault(a: OverlayArgs, input: PathFacts, files: RenderFiles) -> Option<
    CheckError,
> {
    if a.input@ != STDIN@ && !input.exists {
        Some(CheckError::InputMissing)
    } else if a.input@ != STDIN@ && input.is_dir {
        Some(CheckError::InputIsDir)
    } else if render_fault(a.render, files) is Some {
        render_fault(a.render, files)
    } else {
        match a.range {
            Some(range) => match range_of(range@) {
                Err(e) => Some(CheckError::Range(e)),
                Ok(_) => None,
            },
            None => None,
        }
    }
}

/// Why no output path can be made up.
#[derive(Clone, Copy, Debug, PartialEq, Eq, Structural)]
pub enum OutputError {
    /// The video comes from the standard input, which has no name.
    StdinNeedsOutput,
    /// The input path has no file name.
    NoFileName,
}

/// What the output path is to be: `None` if it is given, else the file name to put in the place of
/// that of the input.
pub open spec fn output_name(a: OverlayArgs, file_name: Option<Seq<char>>) -> Result<
    Option<Seq<char>>,
    OutputError,
> {
    if a.output is Some {
        Ok(None)
    } else if a.input@ == STDIN@ {
        Err(OutputError::StdinNeedsOutput)
    } else {
        match file_name {
            Some(name) => Ok(Some("bili_add_on_"@ + name)),
            None => Err(OutputError::NoFileName),
        }
    }
}

/// What an optional text says.
pub open spec fn string_view(s: Option<String>) -> Option<Seq<char>> {
    match s {
        Some(s) => Some(s@),
        None => None,
    }
}

/// What the decision on an output path says.
pub open spec fn name_view(r: Result<Option<String>, OutputError>) -> Result<
    Option<Seq<char>>,
    OutputError,
> {
    match r {
        Ok(name) => Ok(string_view(name)),
        Err(e) => Err(e),
    }
}

/// No part of a text is read as more than a part of a file name, on any platform.
pub open spec fn is_bare(name: Seq<char>) -> bool {
    &&& name.len() > 0
    &&& name != "."@
    &&& name != ".."@
    &&& forall|i: int| 0 <= i < name.len() ==> name[i] != '/' && name[i] != '\\' && name[i] != ':'
}

/// A path is read in the same way on every platform. Two slashes at the start may stand for a place
/// on the network.
pub open spec fn is_portable(path: Seq<char>) -> bool {
    &&& !(path.len() >= 2 && path[0] == '/' && path[1] == '/')
    &&& forall|i: int| 0 <= i < path.len() ==> path[i] != '\\' && path[i] != ':'
}

/// A text ends in another.
pub open spec fn ends_in(s: Seq<char>, end: Seq<char>) -> bool {
    s.len() >= end.len() && s.skip(s.len() - end.len()) == end
}

/// The parts of a path are separated by slashes and, on Windows, by backslashes too.
pub open spec fn is_separator(c: char, windows: bool) -> bool {
    c == '/' || (windows && c == '\\')
}

/// The last part of a path is a single dot, behind a separator.
pub open spec fn ends_in_dot(path: Seq<char>, windows: bool) -> bool {
    path.len() >= 2 && is_separator(path[path.len() - 2], windows) && path.last() == '.'
}

/// A path without what does not count at its end: separators and single dots behind them.
pub open spec fn trimmed(path: Seq<char>, windows: bool) -> Seq<char>
    decreases path.len(),
{
    if path.len() > 0 && (is_separator(path.last(), windows) || ends_in_dot(path, windows)) {
        trimmed(path.drop_last(), windows)
    } else {
        path
    }
}

/// What stands behind the last separator.
pub open spec fn last_part(path: Seq<char>, windows: bool) -> Seq<char>
    decreases path.len(),
{
    if path.len() == 0 || is_separator(path.last(), windows) {
        Seq::empty()
    } else {
        last_part(path.drop_last(), windows).push(path.last())
    }
}

/// The file name in a path without a prefix: its last part that counts. One dot or two are no file
/// name.
pub open spec fn file_name_of(path: Seq<char>, windows: bool) -> Option<Seq<char>> {
    let name = last_part(trimmed(path, windows), windows);
    if name.len() == 0 || name == "."@ || name == ".."@ {
        None
    } else {
        Some(name)
    }
}

/// A path starts in the way that a place on the network does on Windows.
pub open spec fn is_network(path: Seq<char>) -> bool {
    path.len() >= 2 && is_separator(path[0], true) && is_separator(path[1], true)
}

/// A path is one that Windows takes as it is written.
pub open spec fn is_verbatim(path: Seq<char>) -> bool {
    path.len() >= 4 && path[0] == '\\' && path[1] == '\\' && path[2] == '?' && path[3] == '\\'
}

/// A path starts in the way that a drive does on Windows.
pub open spec fn has_drive(path: Seq<char>) -> bool {
    path.len() >= 2 && path[1] == ':'
}

/// What Windows may take for the file name of a path: the prefix that names a drive is no part of
/// it, and a place on the network has none. Of paths that are taken as they are written nothing is
/// said.
pub open spec fn is_windows_name(path: Seq<char>, file: Option<Seq<char>>) -> bool {
    ||| is_verbatim(path)
    ||| file == file_name_of(path, true)
    ||| has_drive(path) && file == file_name_of(path.skip(2), true)
    ||| is_network(path) && file is None
}

/// What is taken for the file name of a path, on the one platform or the other.
pub open spec fn is_file_name(path: Seq<char>, file: Option<Seq<char>>) -> bool {
    file == file_name_of(path, false) || is_windows_name(path, file)
}

/// What stands before the file name `n` in a path.
pub open spec fn head_of(path: Seq<char>, n: Seq<char>, windows: bool) -> Seq<char> {
    trimmed(path, windows).take(trimmed(path, windows).len() - n.len())
}

/// A directory without what does not count at its end, but for the root.
pub open spec fn trimmed_dir(head: Seq<char>) -> Seq<char>
    decreases head.len(),
{
    if head.len() > 1 && (head.last() == '/' || ends_in_dot(head, false)) {
        trimmed_dir(head.drop_last())
    } else {
        head
    }
}

/// `dir` is `head` without some of what does not count at its end on Windows.
pub open spec fn is_cut(head: Seq<char>, dir: Seq<char>) -> bool
    decreases head.len(),
{
    ||| head == dir
    ||| head.len() > 0 && (is_separator(head.last(), true) || ends_in_dot(head, true)) && is_cut(
        head.drop_last(),
        dir,
    )
}

/// A name behind a directory, with a separator between them where there is none yet.
pub open spec fn joined(dir: Seq<char>, name: Seq<char>, windows: bool) -> Seq<char> {
    if dir.len() == 0 || is_separator(dir.last(), windows) {
        dir + name
    } else if windows {
        dir.push('\\') + name
    } else {
        dir.push('/') + name
    }
}

/// A path with another file name, or with one added where it has none, where slashes alone separate
/// its parts.
pub open spec fn renamed_to(path: Seq<char>, name: Seq<char>) -> Seq<char> {
    match file_name_of(path, false) {
        Some(n) => joined(trimmed_dir(head_of(path, n, false)), name, false),
        None => joined(path, name, false),
    }
}

/// `path` is `name` behind a directory on Windows, where nothing comes between a drive and a name.
pub open spec fn is_joined(path: Seq<char>, dir: Seq<char>, name: Seq<char>) -> bool {
    ||| path == joined(dir, name, true)
    ||| dir.len() == 2 && has_drive(dir) && path == dir + name
}

/// `renamed` is `path` with `name` in the place of the file name `file` on Windows.
pub open spec fn is_windows_renamed(
    path: Seq<char>,
    file: Option<Seq<char>>,
    name: Seq<char>,
    renamed: Seq<char>,
) -> bool {
    match file {
        Some(n) => {
            let head = head_of(path, n, true);
            ||| is_joined(renamed, head, name)
            ||| exists|dir: Seq<char>| #[trigger]
                is_cut(head, dir) && dir.len() > 0 && renamed == joined(dir, name, true)
        },
        None => is_joined(renamed, path, name),
    }
}

/// `renamed` is `path` with another file name, on the one platform or the other.
pub open spec fn is_renamed(path: Seq<char>, name: Seq<char>, renamed: Seq<char>) -> bool {
    ||| renamed == renamed_to(path, name)
    ||| is_verbatim(path)
    ||| exists|file: Option<Seq<char>>| #[trigger]
        is_windows_name(path, file) && is_windows_renamed(path, file, name, renamed)
}

/// A name is put behind a directory as it is, on every platform: it starts neither at the root nor
/// at a drive.
pub open spec fn is_joinable(name: Seq<char>) -> bool {
    name.len() > 0 && !is_separator(name[0], true) && !has_drive(name)
}

/// A portable path is made of a directory, a slash and a file name; the directory does not end in
/// anything that does not count, and an empty one stands for the root.
pub open spec fn stands_in(path: Seq<char>, dir: Seq<char>, name: Seq<char>) -> bool {
    &&& is_portable(path)
    &&& is_bare(name)
    &&& path == dir.push('/') + name
    &&& dir.len() == 0 || (dir.last() != '/' && !ends_in_dot(dir, false))
}

/// A path is made of a directory, a separator and a file name.
pub open spec fn is_within(path: Seq<char>, dir: Seq<char>, name: Seq<char>) -> bool {
    path == dir.push('/') + name || path == dir.push('\\') + name
}

/// The last part of a path is made of its characters, other than slashes.
proof fn lemma_last_part(path: Seq<char>)
    ensures
        forall|i: int|
            0 <= i < last_part(path, false).len() ==> path.contains(
                #[trigger] last_part(path, false)[i],
            ) && last_part(path, false)[i] != '/',
    decreases path.len(),
{
    if path.len() > 0 && path.last() != '/' {
        let rest = path.drop_last();
        let part = last_part(path, false);
        lemma_last_part(rest);
        assert forall|i: int| 0 <= i < part.len() implies path.contains(#[trigger] part[i])
            && part[i] != '/' by {
            if i < last_part(rest, false).len() {
                assert(part[i] == last_part(rest, false)[i]);
                let j = choose|j: int| 0 <= j < rest.len() && rest[j] == last_part(rest, false)[i];
                assert(path[j] == part[i]);
            } else {
                assert(path[path.len() - 1] == part[i]);
            }
        }
    }
}

/// What a path is trimmed to is made of its characters.
proof fn lemma_trimmed(path: Seq<char>)
    ensures
        forall|c: char| #[trigger] trimmed(path, false).contains(c) ==> path.contains(c),
    decreases path.len(),
{
    if path.len() > 0 && (path.last() == '/' || ends_in_dot(path, false)) {
        let rest = path.drop_last();
        lemma_trimmed(rest);
        assert(trimmed(path, false) == trimmed(rest, false));
        assert forall|c: char| #[trigger] trimmed(path, false).contains(c) implies path.contains(
            c,
        ) by {
            assert(trimmed(rest, false).contains(c));
            let j = choose|j: int| 0 <= j < rest.len() && rest[j] == c;
            assert(path[j] == c);
        }
    }
}

/// What stands behind a slash and holds none is the last part.
proof fn lemma_part_behind(front: Seq<char>, name: Seq<char>)
    requires
        front.len() == 0 || front.last() == '/',
        forall|i: int| 0 <= i < name.len() ==> name[i] != '/',
    ensures
        last_part(front + name, false) == name,
    decreases name.len(),
{
    let path = front + name;
    if name.len() == 0 {
        assert(path == front);
    } else {
        lemma_part_behind(front, name.drop_last());
        assert(path.drop_last() == front + name.drop_last());
        assert(name.drop_last().push(name.last()) == name);
    }
}

/// A file name behind a slash, or alone, is the file name of the path.
proof fn lemma_file_name_behind(front: Seq<char>, name: Seq<char>)
    requires
        front.len() == 0 || front.last() == '/',
        is_bare(name),
    ensures
        file_name_of(front + name, false) == Some(name),
{
    reveal_strlit(".");
    reveal_strlit("..");
    let path = front + name;
    lemma_part_behind(front, name);
    assert(path.last() == name.last());
    if ends_in_dot(path, false) {
        if name.len() >= 2 {
            assert(path[path.len() - 2] == name[name.len() - 2]);
        }
        assert(name == "."@);
    }
    assert(trimmed(path, false) == path);
}

/// With a prefix, the file name of a portable path is a plain file name.
proof fn lemma_prefixed_name_is_bare(path: Seq<char>)
    requires
        is_portable(path),
        file_name_of(path, false) is Some,
    ensures
        is_bare("bili_add_on_"@ + file_name_of(path, false)->0),
{
    reveal_strlit("bili_add_on_");
    reveal_strlit(".");
    reveal_strlit("..");
    let t = trimmed(path, false);
    lemma_trimmed(path);
    lemma_last_part(t);
    let n = last_part(t, false);
    let long = "bili_add_on_"@ + n;
    assert forall|i: int| 0 <= i < long.len() implies long[i] != '/' && long[i] != '\\' && long[i]
        != ':' by {
        if i >= 12 {
            assert(long[i] == n[i - 12]);
            assert(t.contains(n[i - 12]));
            assert(path.contains(n[i - 12]));
        }
    }
}

/// `std::path::Path::file_name`, as text: the last component of a path, if that is a file name. How
/// a path falls into components depends on the platform, so either reading may hold; portable paths
/// have only one. Nothing is claimed of what Windows reads in a path that it takes as it is written.
#[verifier::external_body]
pub(crate) fn path_file_name(path: &str) -> (name: Option<String>)
    ensures
        is_portable(path@) ==> string_view(name) == file_name_of(path@, false),
        is_file_name(path@, string_view(name)),
{
    std::path::Path::new(path).file_name().map(|name| name.to_string_lossy().into_owned())
}

/// `std::path::Path::with_file_name`, as text: the path ends in the given file name then, is no
/// more than that where the path was a file name alone, and stays in its directory; a path without a
/// file name is a directory itself. Which separator stands behind the directory depends on the
/// platform, and so does the directory where the path is not portable: either reading may hold.
/// Nothing is claimed of the directory of a path that Windows takes as it is written.
#[verifier::external_body]
pub(crate) fn path_with_file_name(path: &str, name: &str) -> (renamed: String)
    ensures
        is_bare(name@) ==> ends_in(renamed@, name@),
        is_bare(name@) && is_bare(path@) ==> renamed@ == name@,
        forall|dir: Seq<char>, n: Seq<char>|
            is_bare(name@) && #[trigger] stands_in(path@, dir, n) ==> is_within(
                renamed@,
                dir,
                name@,
            ),
        is_joinable(name@) ==> is_renamed(path@, name@, renamed@),
{
    std::path::Path::new(path).with_file_name(name).to_string_lossy().into_owned()
}

impl OverlayArgs {
    /// Checks the arguments, where the input and the paths that the options name are as given.
    pub fn check(&self, input: PathFacts, files: &RenderFiles) -> (r: Result<(), CheckError>)
        ensures
            r == verdict_of(overlay_fault(*self, input, *files)),
    {
        if !str_eq(self.input.as_str(), STDIN) {
            if !input.exists {
                return Err(CheckError::InputMissing);
            }
            if input.is_dir {
                return Err(CheckError::InputIsDir);
            }
        }
        match self.render.check(files) {
            Ok(()) => {},
            Err(e) => {
                return Err(e);
            },
        }
        if let Some(range) = &self.range {
            match parse_time_range(range.as_str()) {
                Ok(_) => {},
                Err(e) => {
                    return Err(CheckError::Range(e));
                },
            }
        }
        Ok(())
    }

    /// Decides what the output path is to be, where the file name of the input is `file_name`:
    /// `None` if it is given, else the file name to put in the place of that of the input.
    pub fn default_name(&self, file_name: Option<String>) -> (name: Result<
        Option<String>,
        OutputError,
    >)
        ensures
            name_view(name) == output_name(*self, string_view(file_name)),
    {
        if self.output.is_some() {
            return Ok(None);
        }
        if str_eq(self.input.as_str(), STDIN) {
            return Err(OutputError::StdinNeedsOutput);
        }
        match file_name {
            Some(n) => {
                let mut name = "bili_add_on_".to_owned();
                name.append(n.as_str());
                Ok(Some(name))
            },
            None => Err(OutputError::NoFileName),
        }
    }

    /// Makes up an output path where none is given: that of the input, with a prefix to its file
    /// name.
    pub fn check_output(&mut self) -> (r: Result<(), OutputError>)
        ensures
            final(self).input == old(self).input,
            final(self).range == old(self).range,
            final(self).render == old(self).render,
            old(self).output is Some ==> r is Ok && final(self).output == old(self).output,
            old(self).output is None && old(self).input@ == STDIN@ ==> r == Err::<(), OutputError>(
                OutputError::StdinNeedsOutput,
            ),
            r is Ok ==> final(self).output is Some,
            r is Err ==> final(self).output is None,
            r == Err::<(), OutputError>(OutputError::StdinNeedsOutput) ==> old(self).input@
                == STDIN@,
            old(self).output is None && old(self).input@ != STDIN@ ==> match r {
                Ok(_) => exists|n: Seq<char>| #[trigger]
                    is_file_name(old(self).input@, Some(n)) && is_renamed(
                        old(self).input@,
                        "bili_add_on_"@ + n,
                        final(self).output->0@,
                    ),
                Err(e) => e == OutputError::NoFileName && is_file_name(old(self).input@, None),
            },
            old(self).output is None && is_portable(old(self).input@) ==> match file_name_of(
                old(self).input@,
                false,
            ) {
                Some(n) => r is Ok && ends_in(final(self).output->0@, "bili_add_on_"@ + n),
                None => r == Err::<(), OutputError>(OutputError::NoFileName),
            },
            old(self).output is None && is_bare(old(self).input@) ==> r is Ok
                && final(self).output->0@ == "bili_add_on_"@ + old(self).input@,
            forall|dir: Seq<char>, n: Seq<char>|
                old(self).output is None && #[trigger] stands_in(old(self).input@, dir, n) ==> r
                    is Ok && is_within(final(self).output->0@, dir, "bili_add_on_"@ + n),
    {
        let ghost before = self.input@;
        proof {
            reveal_strlit(":STDIN:");
            assert(STDIN@[0] == ':');
            reveal_strlit("bili_add_on_");
            if is_portable(before) && file_name_of(before, false) is Some {
                lemma_prefixed_name_is_bare(before);
            }
            if is_bare(before) {
                lemma_file_name_behind(Seq::empty(), before);
                assert(Seq::empty() + before == before);
            }
            assert forall|dir: Seq<char>, n: Seq<char>| #[trigger]
                stands_in(before, dir, n) implies file_name_of(before, false) == Some(n) by {
                lemma_file_name_behind(dir.push('/'), n);
            }
        }
        let file_name = path_file_name(self.input.as_str());
        match self.default_name(file_name) {
            Ok(Some(name)) => {
                let output = path_with_file_name(self.input.as_str(), name.as_str());
                self.output = Some(output);
                Ok(())
            },
            Ok(None) => Ok(()),
            Err(e) => Err(e),
        }
    }
}

/// The first thing that is wrong with the arguments of a capture, where the paths that the options
/// name are as given.
pub open spec fn capture_fault(a: CaptureArgs, files: RenderFiles) -> Option<CheckError> {
    match cut(a.capture@, ':') {
        Some((format, url)) if url.len() == 0 => Some(CheckError::CaptureUrl),
        _ => render_fault(a.render, files),
    }
}

impl CaptureArgs {
    /// Checks the arguments, where the paths that the options name are as given.
    pub fn check(&self, files: &RenderFiles) -> (r: Result<(), CheckError>)
        ensures
            r == verdict_of(capture_fault(*self, *files)),
    {
        if let Some((_, url)) = split_once(self.capture.as_str(), ':') {
            if url.as_str().is_empty() {
                return Err(CheckError::CaptureUrl);
            }
        }
        self.render.check(files)
    }
}

/// The two audio options cannot be combined with the one that asks for none.
pub proof fn law_no_audio_excludes_audio(o: RenderOptions, files: RenderFiles)
    requires
        render_fault(o, files) is None,
        o.no_audio,
    ensures
        o.audio is None,
        o.audio_range is None,
{
}

/// What passes the check can be rendered: the danmaku move, the edges of their area are in order,
/// and the encoder is known.
pub proof fn law_checked_options_are_usable(o: RenderOptions, files: RenderFiles)
    requires
        render_fault(o, files) is None,
    ensures
        o.speed > 0,
        o.top_ratio.below(o.bottom_ratio),
        zero().at_most(o.opacity) && o.opacity.at_most(one()),
        pref_of(o.encoder@) is Some,
{
}

/// A filter that is not a regular expression, and why.
#[derive(Debug)]
pub struct FilterError {
    pub pattern: String,
    pub detail: String,
}

/// Whether a text is a regular expression.
pub open spec fn compiles(pattern: Seq<char>) -> bool {
    regex_matches(pattern, Seq::empty()) is Ok
}

/// The filters, from `i` on, up to the first that is not a regular expression.
pub open spec fn bad_filter(filters: Seq<Seq<char>>, i: int) -> Option<Seq<char>>
    decreases filters.len() - i,
{
    if i >= filters.len() {
        None
    } else if !compiles(filters[i]) {
        Some(filters[i])
    } else {
        bad_filter(filters, i + 1)
    }
}

impl RenderOptions {
    /// The filters, if there are any, once all of them are known to be regular expressions.
    pub fn parse_filters(&self) -> (r: Option<Result<Vec<String>, FilterError>>)
        ensures
            match r {
                None => self.filter is None,
                Some(Ok(v)) => self.filter is Some && bad_filter(texts(self.filter->0@), 0) is None
                    && texts(v@) == texts(self.filter->0@),
                Some(Err(e)) => self.filter is Some && bad_filter(
                    texts(self.filter->0@),
                    0,
                ) == Some(e.pattern@) && regex_matches(e.pattern@, Seq::empty()) == Err::<
                    bool,
                    Seq<char>,
                >(e.detail@),
            },
    {
        let filters = match &self.filter {
            Some(filters) => filters,
            None => {
                return None;
            },
        };
        let ghost views = texts(filters@);
        let none: Vec<String> = Vec::new();
        let mut kept: Vec<String> = Vec::new();
        let mut i: usize = 0;
        assert(texts(kept@) == views.take(0));
        while i < filters.len()
            invariant
                self.filter == Some(*filters),
                views == texts(filters@),
                i <= filters@.len(),
                bad_filter(views, 0) == bad_filter(views, i as int),
                texts(kept@) == views.take(i as int),
            decreases filters@.len() - i,
        {
            let pattern = filters[i].as_str();
            assert(views[i as int] == pattern@);
            match match_all(pattern, &none) {
                Ok(_) => {},
                Err(detail) => {
                    assert(regex_matches(pattern@, Seq::empty()) is Err);
                    return Some(Err(FilterError { pattern: pattern.to_owned(), detail }));
                },
            }
            assert(regex_matches(pattern@, Seq::empty()) is Ok);
            let ghost before = kept@;
            let copy = filters[i].clone();
            kept.push(copy);
            assert(texts(kept@) == texts(before).push(copy@));
            assert(views.take(i + 1) == views.take(i as int).push(views[i as int]));
            i += 1;
        }
        assert(views.take(i as int) == views);
        Some(Ok(kept))
    }
}

/// A font file is found fault with exactly if one is missing or a directory, and then it is the first
/// such that is told.
pub proof fn law_first_bad_font_is_told(fonts: Seq<PathFacts>, i: int)
    requires
        0 <= i <= fonts.len() <= usize::MAX,
    ensures
        match font_fault(fonts, i) {
            None => forall|k: int|
                i <= k < fonts.len() ==> (#[trigger] fonts[k]).exists && !fonts[k].is_dir,
            Some(CheckError::FontMissing(n)) => i <= n < fonts.len() && !fonts[n as int].exists
                && forall|k: int| i <= k < n ==> (#[trigger] fonts[k]).exists && !fonts[k].is_dir,
            Some(CheckError::FontIsDir(n)) => i <= n < fonts.len() && fonts[n as int].exists
                && fonts[n as int].is_dir && forall|k: int|
                i <= k < n ==> (#[trigger] fonts[k]).exists && !fonts[k].is_dir,
            _ => false,
        },
    decreases fonts.len() - i,
{
    if i < fonts.len() {
        law_first_bad_font_is_told(fonts, i + 1);
    }
}

/// Of the filters, the first is told that is not a regular expression; none is if all of them are.
pub proof fn law_first_bad_filter_is_told(filters: Seq<Seq<char>>, i: int)
    requires
        0 <= i <= filters.len(),
    ensures
        match bad_filter(filters, i) {
            None => forall|k: int|
                i <= k < filters.len() ==> regex_matches(#[trigger] filters[k], Seq::empty()) is Ok,
            Some(pattern) => exists|n: int|
                {
                    &&& i <= n < filters.len()
                    &&& #[trigger] filters[n] == pattern
                    &&& regex_matches(filters[n], Seq::empty()) is Err
                    &&& forall|k: int|
                        i <= k < n ==> regex_matches(#[trigger] filters[k], Seq::empty()) is Ok
                },
        },
    decreases filters.len() - i,
{
    if i < filters.len() {
        law_first_bad_filter_is_told(filters, i + 1);
        if !compiles(filters[i]) {
            assert(filters[i] == bad_filter(filters, i)->0);
        }
    }
}

proof fn lemma_sound_looks(o: RenderOptions, fonts: Seq<PathFacts>)
    requires
        fonts.len() <= usize::MAX,
    ensures
        looks_fault(o, fonts) is None <==> {
            &&& !o.opacity.spec_is_nan() && 0 <= o.opacity.value() <= unit()
            &&& !o.top_ratio.spec_is_nan() && !o.bottom_ratio.spec_is_nan()
            &&& o.top_ratio.value() < o.bottom_ratio.value()
            &&& o.font_scale.spec_is_nan() || o.font_scale.value() > 0
            &&& forall|k: int|
                0 <= k < fonts.len() ==> (#[trigger] fonts[k]).exists && !fonts[k].is_dir
            &&& o.speed > 0
        },
{
    law_first_bad_font_is_told(fonts, 0);
    lemma_bounds(o.opacity);
    lemma_bounds(o.font_scale);
    if font_fault(fonts, 0) is Some {
        let n = match font_fault(fonts, 0)->0 {
            CheckError::FontMissing(n) => n as int,
            CheckError::FontIsDir(n) => n as int,
            _ => 0,
        };
        assert(!(fonts[n].exists && !fonts[n].is_dir));
    }
}

proof fn lemma_sound_encoding(o: RenderOptions)
    ensures
        encoding_fault(o) is None <==> {
            &&& pref_of(o.encoder@) is Some
            &&& is_preset(o.x264_preset@)
            &&& o.fixed_duration.spec_is_nan() || o.fixed_duration.value() > 0
            &&& !sum(product(o.font_scale, of_whole(25)), of_whole(o.line_spacing as nat)).at_most(
                zero(),
            )
        },
{
    lemma_bounds(o.fixed_duration);
}

proof fn lemma_sound_audio(o: RenderOptions, audio: PathFacts)
    ensures
        audio_fault(o, audio) is None <==> {
            &&& o.audio is Some ==> audio.exists && !audio.is_dir && !o.no_audio
            &&& o.audio_range is Some ==> range_of(o.audio_range->0@) is Ok && !o.no_audio
        },
{
}

/// Options are accepted exactly if nothing about them is wrong.
pub proof fn law_accepted_means_sound(o: RenderOptions, files: RenderFiles)
    requires
        files.fonts@.len() <= usize::MAX,
    ensures
        render_fault(o, files) is None <==> {
            &&& o.source.xml is Some ==> files.xml.exists && !files.xml.is_dir && string_view(
                files.xml_extension,
            ) == Some("xml"@)
            &&& !o.opacity.spec_is_nan() && 0 <= o.opacity.value() <= unit()
            &&& !o.top_ratio.spec_is_nan() && !o.bottom_ratio.spec_is_nan()
            &&& o.top_ratio.value() < o.bottom_ratio.value()
            &&& o.font_scale.spec_is_nan() || o.font_scale.value() > 0
            &&& forall|k: int|
                0 <= k < files.fonts@.len() ==> (#[trigger] files.fonts@[k]).exists
                    && !files.fonts@[k].is_dir
            &&& o.speed > 0
            &&& pref_of(o.encoder@) is Some
            &&& is_preset(o.x264_preset@)
            &&& o.fixed_duration.spec_is_nan() || o.fixed_duration.value() > 0
            &&& !sum(product(o.font_scale, of_whole(25)), of_whole(o.line_spacing as nat)).at_most(
                zero(),
            )
            &&& o.audio is Some ==> files.audio.exists && !files.audio.is_dir && !o.no_audio
            &&& o.audio_range is Some ==> range_of(o.audio_range->0@) is Ok && !o.no_audio
        },
{
    lemma_sound_looks(o, files.fonts@);
    lemma_sound_encoding(o);
    lemma_sound_audio(o, files.audio);
}

/// What is told to be wrong is wrong.
pub proof fn law_told_fault_is_there(o: RenderOptions, files: RenderFiles, e: CheckError)
    requires
        files.fonts@.len() <= usize::MAX,
        render_fault(o, files) == Some(e),
    ensures
        match e {
            CheckError::XmlMissing => o.source.xml is Some && !files.xml.exists,
            CheckError::XmlExtension => o.source.xml is Some && files.xml.exists && string_view(
                files.xml_extension,
            ) != Some("xml"@),
            CheckError::XmlIsDir => o.source.xml is Some && files.xml.is_dir,
            CheckError::Opacity => o.opacity.spec_is_nan() || o.opacity.value() < 0
                || o.opacity.value() > unit(),
            CheckError::RatioNotNumber => o.top_ratio.spec_is_nan() || o.bottom_ratio.spec_is_nan(),
            CheckError::RatioOrder => o.top_ratio.value() >= o.bottom_ratio.value(),
            CheckError::FontScale => o.font_scale.value() <= 0,
            CheckError::FontMissing(n) => n < files.fonts@.len() && !files.fonts@[n as int].exists,
            CheckError::FontIsDir(n) => n < files.fonts@.len() && files.fonts@[n as int].is_dir,
            CheckError::Speed => o.speed == 0,
            CheckError::Encoder => pref_of(o.encoder@) is None,
            CheckError::Preset => !is_preset(o.x264_preset@),
            CheckError::FixedDuration => o.fixed_duration.value() <= 0,
            CheckError::LineHeight => sum(
                product(o.font_scale, of_whole(25)),
                of_whole(o.line_spacing as nat),
            ).value() <= 0,
            CheckError::AudioMissing => o.audio is Some && !files.audio.exists,
            CheckError::AudioIsDir => o.audio is Some && files.audio.is_dir,
            CheckError::AudioConflict => o.audio is Some && o.no_audio,
            CheckError::AudioRange(fault) => o.audio_range is Some && range_of(o.audio_range->0@)
                == Err::<(Double, Double), RangeError>(fault),
            CheckError::AudioRangeConflict => o.audio_range is Some && o.no_audio,
            _ => false,
        },
{
    let height = sum(product(o.font_scale, of_whole(25)), of_whole(o.line_spacing as nat));
    law_first_bad_font_is_told(files.fonts@, 0);
    lemma_bounds(o.opacity);
    lemma_bounds(o.font_scale);
    lemma_bounds(o.fixed_duration);
    lemma_bounds(height);
    if e is LineHeight {
        assert(height.at_most(zero()));
    }
}

/// What the bounds of options are.
proof fn lemma_bounds(x: Double)
    ensures
        x.at_most(zero()) <==> !x.spec_is_nan() && x.value() <= 0,
        zero().at_most(x) <==> !x.spec_is_nan() && 0 <= x.value(),
        x.at_most(one()) <==> !x.spec_is_nan() && x.value() <= unit(),
{
    crate::progress::lemma_one();
    crate::double::lemma_magnitudes_ordered(0, 0);
}

/// An overlay is accepted exactly if its input is there, its options are sound and its range can be
/// read; a capture, if its device has a URL and its options are sound.
pub proof fn law_accepted_arguments_are_sound(
    a: OverlayArgs,
    input: PathFacts,
    c: CaptureArgs,
    files: RenderFiles,
)
    ensures
        overlay_fault(a, input, files) is None <==> {
            &&& a.input@ == STDIN@ || (input.exists && !input.is_dir)
            &&& render_fault(a.render, files) is None
            &&& a.range is Some ==> range_of(a.range->0@) is Ok
        },
        capture_fault(c, files) is None <==> {
            &&& render_fault(c.render, files) is None
            &&& c.capture@.contains(':') ==> c.capture@.last() != ':' || exists|i: int|
                0 <= i < c.capture@.len() - 1 && c.capture@[i] == ':'
        },
{
    let s = c.capture@;
    law_cut_at_first(s, ':');
    match cut(s, ':') {
        Some((format, url)) => {
            assert(s[format.len() as int] == ':');
            assert(s.contains(':'));
            if url.len() == 0 {
                assert(s.last() == ':');
                assert forall|i: int| 0 <= i < s.len() - 1 implies s[i] != ':' by {
                    assert(format[i] == s[i]);
                    assert(format.contains(format[i]));
                }
            } else if s.last() == ':' {
                assert(0 <= format.len() < s.len() - 1);
            }
        },
        None => {},
    }
}

} // verus!
