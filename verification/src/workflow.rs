//! What a run of the program does, step by step: where the video comes from, where its audio comes
//! from, and what becomes of the result.

use crate::arith::of_whole;
use crate::double::Double;
use crate::options::{STDIN, STDOUT};
use crate::text::{cut, law_cut_at_first, law_cut_of_joined, split_once, str_eq};
use vstd::prelude::*;
use vstd::string::*;

verus! {

/// What the video comes from.
#[derive(Clone, Copy, Debug, PartialEq, Eq, Structural)]
pub enum InputKind {
    File,
    Stdin,
    Device,
}

/// Where the video comes from: what is opened, and in which format, where that cannot be found out.
pub struct InputSpec {
    pub kind: InputKind,
    pub url: String,
    pub format: Option<String>,
}

/// What an input says, with its texts.
pub struct InputView {
    pub kind: InputKind,
    pub url: Seq<char>,
    pub format: Option<Seq<char>>,
}

impl View for InputSpec {
    type V = InputView;

    open spec fn view(&self) -> InputView {
        InputView {
            kind: self.kind,
            url: self.url@,
            format: match self.format {
                Some(f) => Some(f@),
                None => None,
            },
        }
    }
}

/// The input that `--input` names: the standard input, or else a file.
pub open spec fn input_of(input: Seq<char>) -> InputView {
    if input == STDIN@ {
        InputView { kind: InputKind::Stdin, url: "pipe:0"@, format: None }
    } else {
        InputView { kind: InputKind::File, url: input, format: None }
    }
}

/// Works out which input `--input` names.
pub fn input_spec(input: &str) -> (spec: InputSpec)
    ensures
        spec@ == input_of(input@),
{
    if str_eq(input, STDIN) {
        InputSpec { kind: InputKind::Stdin, url: "pipe:0".to_owned(), format: None }
    } else {
        InputSpec { kind: InputKind::File, url: input.to_owned(), format: None }
    }
}

/// Why a capture device cannot be opened.
#[derive(Clone, Copy, Debug, PartialEq, Eq, Structural)]
pub enum DeviceError {
    /// The format or the URL is empty.
    EmptyPart,
    /// There is no default way to capture the screen on this platform.
    NoScreen,
    /// There is no default way to capture from a camera on this platform.
    NoCamera,
}

/// The capture device with a given URL and format.
pub open spec fn device(url: Seq<char>, format: Seq<char>) -> InputView {
    InputView { kind: InputKind::Device, url, format: Some(format) }
}

/// How the screen is captured on a platform.
pub open spec fn screen_of(os: Seq<char>) -> Result<InputView, DeviceError> {
    if os == "windows"@ {
        Ok(device("desktop"@, "gdigrab"@))
    } else if os == "linux"@ {
        Ok(device(":0.0"@, "x11grab"@))
    } else if os == "macos"@ {
        Ok(device("1:none"@, "avfoundation"@))
    } else {
        Err(DeviceError::NoScreen)
    }
}

/// How a camera with a given name is captured on a platform.
pub open spec fn camera_of(name: Seq<char>, os: Seq<char>) -> Result<InputView, DeviceError> {
    if os == "windows"@ {
        Ok(device("video="@ + name, "dshow"@))
    } else if os == "linux"@ {
        Ok(device(name, "v4l2"@))
    } else if os == "macos"@ {
        Ok(device(name, "avfoundation"@))
    } else {
        Err(DeviceError::NoCamera)
    }
}

/// The capture device that `--capture` names on a platform: a format and a URL, with a colon between
/// them; the screen; or the name of a camera.
pub open spec fn device_of(spec: Seq<char>, os: Seq<char>) -> Result<InputView, DeviceError> {
    match cut(spec, ':') {
        Some((format, url)) => if format.len() == 0 || url.len() == 0 {
            Err(DeviceError::EmptyPart)
        } else {
            Ok(device(url, format))
        },
        None => if spec == "desktop"@ || spec == "screen"@ {
            screen_of(os)
        } else {
            camera_of(spec, os)
        },
    }
}

/// What the outcome of naming a capture device says.
pub open spec fn outcome_view(r: Result<InputSpec, DeviceError>) -> Result<InputView, DeviceError> {
    match r {
        Ok(spec) => Ok(spec@),
        Err(e) => Err(e),
    }
}

fn device_spec(url: &str, format: &str) -> (spec: InputSpec)
    ensures
        spec@ == device(url@, format@),
{
    InputSpec { kind: InputKind::Device, url: url.to_owned(), format: Some(format.to_owned()) }
}

/// Works out which capture device `--capture` names on a platform.
pub fn device_input_spec(spec: &str, os: &str) -> (r: Result<InputSpec, DeviceError>)
    ensures
        outcome_view(r) == device_of(spec@, os@),
{
    if let Some((format, url)) = split_once(spec, ':') {
        if format.as_str().is_empty() || url.as_str().is_empty() {
            return Err(DeviceError::EmptyPart);
        }
        return Ok(device_spec(url.as_str(), format.as_str()));
    }
    if str_eq(spec, "desktop") || str_eq(spec, "screen") {
        if str_eq(os, "windows") {
            Ok(device_spec("desktop", "gdigrab"))
        } else if str_eq(os, "linux") {
            Ok(device_spec(":0.0", "x11grab"))
        } else if str_eq(os, "macos") {
            Ok(device_spec("1:none", "avfoundation"))
        } else {
            Err(DeviceError::NoScreen)
        }
    } else if str_eq(os, "windows") {
        let mut url = "video=".to_owned();
        url.append(spec);
        Ok(device_spec(url.as_str(), "dshow"))
    } else if str_eq(os, "linux") {
        Ok(device_spec(spec, "v4l2"))
    } else if str_eq(os, "macos") {
        Ok(device_spec(spec, "avfoundation"))
    } else {
        Err(DeviceError::NoCamera)
    }
}

/// The frame rate that is gone by where the input tells none: that of a capture device is taken to be
/// 25 frames a second.
pub open spec fn fallback_of(kind: InputKind) -> Option<Double> {
    match kind {
        InputKind::Device => Some(of_whole(25)),
        InputKind::File | InputKind::Stdin => None,
    }
}

/// Finds the frame rate that is gone by where the input tells none.
pub fn fallback_rate(kind: InputKind) -> (rate: Option<Double>)
    ensures
        rate == fallback_of(kind),
{
    match kind {
        InputKind::Device => Some(Double::from_u64(25)),
        InputKind::File | InputKind::Stdin => None,
    }
}

/// A device that is named by its format and its URL is the same on every platform.
pub proof fn law_full_name_is_portable(spec: Seq<char>, a: Seq<char>, b: Seq<char>)
    requires
        cut(spec, ':') is Some,
    ensures
        device_of(spec, a) == device_of(spec, b),
{
}

/// A device that passed the check of the arguments has a URL.
pub proof fn law_device_has_url(spec: Seq<char>, os: Seq<char>)
    requires
        device_of(spec, os) is Ok,
        spec.len() > 0,
    ensures
        device_of(spec, os)->Ok_0.url.len() > 0,
        device_of(spec, os)->Ok_0.kind == InputKind::Device,
{
    reveal_strlit("desktop");
    reveal_strlit(":0.0");
    reveal_strlit("1:none");
    reveal_strlit("video=");
}

/// A file that audio may come from.
#[derive(Clone, Copy, Debug, PartialEq, Eq, Structural)]
pub enum AudioOrigin {
    /// None.
    Nowhere,
    /// The file that `--audio` names.
    Given,
    /// The video.
    Video,
}

/// Where audio may come from: the file that is given for it, or else the video, if it is a file;
/// from nowhere if none is wanted.
pub open spec fn origin_of(no_audio: bool, audio_given: bool, kind: InputKind) -> AudioOrigin {
    if no_audio {
        AudioOrigin::Nowhere
    } else if audio_given {
        AudioOrigin::Given
    } else if kind == InputKind::File {
        AudioOrigin::Video
    } else {
        AudioOrigin::Nowhere
    }
}

/// Works out where audio may come from.
pub fn audio_origin(no_audio: bool, audio_given: bool, kind: InputKind) -> (origin: AudioOrigin)
    ensures
        origin == origin_of(no_audio, audio_given, kind),
{
    if no_audio {
        AudioOrigin::Nowhere
    } else if audio_given {
        AudioOrigin::Given
    } else if kind == InputKind::File {
        AudioOrigin::Video
    } else {
        AudioOrigin::Nowhere
    }
}

/// Why there is no audio where it was asked for.
#[derive(Clone, Copy, Debug, PartialEq, Eq, Structural)]
pub enum AudioFault {
    /// The file cannot be looked into.
    Unreadable,
    /// The file holds no audio.
    NoStream,
}

/// Whether there is audio to be merged, where `found` says whether the file that it may come from
/// holds any, if it can be looked into. It must do so if it was given for that.
pub open spec fn audio_decision(origin: AudioOrigin, found: Option<bool>) -> Result<
    bool,
    AudioFault,
> {
    match origin {
        AudioOrigin::Nowhere => Ok(false),
        AudioOrigin::Given => match found {
            None => Err(AudioFault::Unreadable),
            Some(false) => Err(AudioFault::NoStream),
            Some(true) => Ok(true),
        },
        AudioOrigin::Video => Ok(found == Some(true)),
    }
}

/// Decides whether there is audio to be merged.
pub fn decide_audio(origin: AudioOrigin, found: Option<bool>) -> (r: Result<bool, AudioFault>)
    ensures
        r == audio_decision(origin, found),
{
    match origin {
        AudioOrigin::Nowhere => Ok(false),
        AudioOrigin::Given => match found {
            None => Err(AudioFault::Unreadable),
            Some(holds) => if holds {
                Ok(true)
            } else {
                Err(AudioFault::NoStream)
            },
        },
        AudioOrigin::Video => match found {
            None => Ok(false),
            Some(holds) => Ok(holds),
        },
    }
}

/// The key of what is said when there is no audio, though it is wanted.
pub open spec fn notice_of(
    has_audio: bool,
    no_audio: bool,
    quiet: bool,
    kind: InputKind,
    range_given: bool,
) -> Option<Seq<char>> {
    if has_audio || no_audio || quiet {
        None
    } else {
        match kind {
            InputKind::Stdin => Some("stdin_audio_skipped"@),
            InputKind::Device => Some("device_audio_skipped"@),
            InputKind::File => if range_given {
                Some("audio_range_ignored"@)
            } else {
                None
            },
        }
    }
}

/// Finds what is said when there is no audio, though it is wanted.
pub fn audio_notice(
    has_audio: bool,
    no_audio: bool,
    quiet: bool,
    kind: InputKind,
    range_given: bool,
) -> (key: Option<&'static str>)
    ensures
        crate::i18n::opt_view(key) == notice_of(has_audio, no_audio, quiet, kind, range_given),
{
    if has_audio || no_audio || quiet {
        return None;
    }
    match kind {
        InputKind::Stdin => Some("stdin_audio_skipped"),
        InputKind::Device => Some("device_audio_skipped"),
        InputKind::File => if range_given {
            Some("audio_range_ignored")
        } else {
            None
        },
    }
}

/// What becomes of the rendered video.
#[derive(Clone, Copy, Debug, PartialEq, Eq, Structural)]
pub enum Finish {
    /// It is merged with the audio into the output file.
    MergeIntoOutput,
    /// It is merged with the audio into a second temporary file, which is written to the standard
    /// output.
    MergeAndStream,
    /// It is moved to the output file.
    Move,
    /// It is written to the standard output.
    Stream,
}

/// What becomes of the rendered video.
pub open spec fn finish_of(output: Seq<char>, has_audio: bool) -> Finish {
    if output == STDOUT@ {
        if has_audio {
            Finish::MergeAndStream
        } else {
            Finish::Stream
        }
    } else if has_audio {
        Finish::MergeIntoOutput
    } else {
        Finish::Move
    }
}

/// Decides what becomes of the rendered video.
pub fn plan_finish(output: &str, has_audio: bool) -> (finish: Finish)
    ensures
        finish == finish_of(output@, has_audio),
{
    if str_eq(output, STDOUT) {
        if has_audio {
            Finish::MergeAndStream
        } else {
            Finish::Stream
        }
    } else if has_audio {
        Finish::MergeIntoOutput
    } else {
        Finish::Move
    }
}

/// Whoever wants no audio gets none, and a file that is given for it comes before the video.
pub proof fn law_audio_priority(audio_given: bool, kind: InputKind, found: Option<bool>)
    ensures
        audio_decision(origin_of(true, audio_given, kind), found) == Ok::<bool, AudioFault>(false),
        audio_given ==> origin_of(false, audio_given, kind) == AudioOrigin::Given,
        origin_of(false, audio_given, kind) == AudioOrigin::Video ==> kind == InputKind::File,
{
}

/// A device that is written as a format and a URL with a colon between them is opened in that format
/// under that URL.
pub proof fn law_device_reads_back(format: Seq<char>, url: Seq<char>, os: Seq<char>)
    requires
        !format.contains(':'),
    ensures
        match device_of(format.push(':') + url, os) {
            Ok(input) => format.len() > 0 && url.len() > 0 && input.url == url && input.format == Some(
                format,
            ) && input.kind == InputKind::Device,
            Err(e) => (format.len() == 0 || url.len() == 0) && e == DeviceError::EmptyPart,
        },
{
    law_cut_of_joined(format, url, ':');
}

/// The name of a camera is part of the URL that it is opened under, at its end.
pub proof fn law_camera_is_named(name: Seq<char>, os: Seq<char>)
    requires
        !name.contains(':'),
        name != "desktop"@,
        name != "screen"@,
        device_of(name, os) is Ok,
    ensures
        ({
            let url = device_of(name, os)->Ok_0.url;
            url.len() >= name.len() && url.skip(url.len() - name.len()) == name
        }),
        device_of(name, os)->Ok_0.format is Some,
{
    law_cut_at_first(name, ':');
    if let Some((before, after)) = cut(name, ':') {
        assert(name[before.len() as int] == ':');
        assert(name.contains(':'));
    }
    let url = device_of(name, os)->Ok_0.url;
    assert(url.skip(url.len() - name.len()) =~= name);
}

/// A file is opened under its own path.
pub proof fn law_file_is_opened_as_named(input: Seq<char>)
    requires
        input != STDIN@,
    ensures
        input_of(input).url == input,
        input_of(input).kind == InputKind::File,
{
}

/// The result goes to the standard output exactly if that is asked for, and audio is merged exactly
/// if there is some.
pub proof fn law_result_goes_where_asked(output: Seq<char>, has_audio: bool)
    ensures
        ({
            let finish = finish_of(output, has_audio);
            &&& (finish is Stream || finish is MergeAndStream) <==> output == STDOUT@
            &&& (finish is MergeIntoOutput || finish is MergeAndStream) <==> has_audio
        }),
{
}

/// Nothing is said of missing audio where there is some, where none is wanted, or where nothing is to
/// be said; and something is where the input could not give any.
pub proof fn law_missing_audio_is_told(
    has_audio: bool,
    no_audio: bool,
    quiet: bool,
    kind: InputKind,
    range_given: bool,
)
    ensures
        notice_of(has_audio, no_audio, quiet, kind, range_given) is Some <==> !has_audio && !no_audio
            && !quiet && (kind != InputKind::File || range_given),
{
}

/// Audio is merged only where it is known to be there; a file that was given for it and lacks it, or
/// cannot be looked into, is an error, and a video is not.
pub proof fn law_only_found_audio_is_merged(origin: AudioOrigin, found: Option<bool>)
    ensures
        match audio_decision(origin, found) {
            Ok(true) => found == Some(true) && origin != AudioOrigin::Nowhere,
            Ok(false) => origin == AudioOrigin::Nowhere || (origin == AudioOrigin::Video && found
                != Some(true)),
            Err(fault) => origin == AudioOrigin::Given && found != Some(true) && (fault
                is Unreadable <==> found is None),
        },
{
}

} // verus!
