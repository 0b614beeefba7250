use bili_add_on::double::Double;
use bili_add_on::options::{
    CaptureArgs, CheckError, DanmakuSource, OutputError, OverlayArgs, PathFacts, RenderFiles,
    RenderOptions, STDIN, STDOUT,
};
use bili_add_on::timeline::RangeError;

fn double(x: f64) -> Double {
    Double::from_bits(x.to_bits())
}

const FILE: PathFacts = PathFacts { exists: true, is_dir: false };
const DIR: PathFacts = PathFacts { exists: true, is_dir: true };
const NOTHING: PathFacts = PathFacts { exists: false, is_dir: false };

fn no_files() -> RenderFiles {
    RenderFiles { xml: NOTHING, xml_extension: None, fonts: vec![], audio: NOTHING }
}

fn default_render() -> RenderOptions {
    RenderOptions {
        source: DanmakuSource { bvid: Some("BV1test".to_string()), xml: None },
        opacity: double(0.93),
        top_ratio: double(0.0),
        bottom_ratio: double(1.0),
        font_scale: double(1.0),
        font: vec![],
        system_fonts: false,
        speed: 3,
        line_spacing: 4,
        min_space: 20,
        fixed_duration: double(5.0),
        no_audio: false,
        quiet: false,
        encoder: "auto".to_string(),
        x264_preset: "medium".to_string(),
        longest: false,
        filter: Some(vec![]),
        audio: None,
        audio_range: None,
        lang: "auto".to_string(),
    }
}

fn default_overlay() -> OverlayArgs {
    OverlayArgs {
        input: "test.mp4".to_string(),
        output: Some("output.mp4".to_string()),
        range: None,
        render: default_render(),
    }
}

fn file_name(path: &str) -> String {
    std::path::Path::new(path).file_name().unwrap().to_string_lossy().into_owned()
}

#[test]
fn test_check_output_generates_default_path() {
    let mut args = default_overlay();
    args.input = "videos/my_video.mp4".to_string();
    args.output = None;

    args.check_output().unwrap();
    let out = args.output.unwrap();
    assert_eq!(file_name(&out), "bili_add_on_my_video.mp4");
}

#[test]
fn test_check_output_path_generation() {
    let mut args = default_overlay();
    args.input = "/home/user/videos/test_video.mp4".to_string();
    args.output = None;
    args.check_output().unwrap();
    let out = args.output.unwrap();
    assert_eq!(file_name(&out), "bili_add_on_test_video.mp4");
}

#[test]
fn test_check_output_requires_explicit_output_for_stdin() {
    let mut args = default_overlay();
    args.input = STDIN.to_string();
    args.output = None;
    assert!(args.check_output().is_err());
    args.output = Some(STDOUT.to_string());
    assert!(args.check_output().is_ok());
}

#[test]
fn test_check_stdin_skips_file_checks() {
    let mut args = default_overlay();
    args.input = STDIN.to_string();
    assert!(args.check(NOTHING, &no_files()).is_ok());
}

#[test]
fn test_check_valid_opacity_rejected() {
    let mut args = default_overlay();
    args.render.opacity = double(1.5);
    assert!(args.check(NOTHING, &no_files()).is_err());
    assert_eq!(args.check(FILE, &no_files()), Err(CheckError::Opacity));
    args.render.opacity = double(-0.1);
    assert!(args.check(NOTHING, &no_files()).is_err());
    assert_eq!(args.check(FILE, &no_files()), Err(CheckError::Opacity));
}

#[test]
fn test_check_encoder_valid() {
    for enc in &["auto", "nvenc", "amf", "qsv", "software"] {
        let mut args = default_overlay();
        args.render.encoder = enc.to_string();
        assert!(args.check(FILE, &no_files()).is_ok());
    }
    let mut args = default_overlay();
    args.render.encoder = "cuda".to_string();
    assert!(args.check(NOTHING, &no_files()).is_err());
    assert_eq!(args.check(FILE, &no_files()), Err(CheckError::Encoder));
}

#[test]
fn test_check_x264_preset() {
    for preset in ["ultrafast", "veryfast", "fast", "medium", "slow", "veryslow"] {
        let mut args = default_overlay();
        args.render.x264_preset = preset.to_string();
        assert!(args.check(NOTHING, &no_files()).is_err()); // 文件存在性检查先失败，预设本身有效
    }
    let mut args = default_overlay();
    args.render.x264_preset = "veryfast".to_string();
    assert!(args.check(FILE, &no_files()).is_ok());
    args.render.x264_preset = "bogus".to_string();
    assert!(args.check(FILE, &no_files()).is_err());
}

#[test]
fn test_check_speed_zero_rejected() {
    let mut args = default_overlay();
    args.render.speed = 0;
    assert!(args.check(NOTHING, &no_files()).is_err());
    assert_eq!(args.check(FILE, &no_files()), Err(CheckError::Speed));
}

#[test]
fn test_check_font_scale_non_positive_rejected() {
    let mut args = default_overlay();
    args.render.font_scale = double(0.0);
    assert!(args.check(NOTHING, &no_files()).is_err());
    assert_eq!(args.check(FILE, &no_files()), Err(CheckError::FontScale));
    args.render.font_scale = double(-1.0);
    assert!(args.check(NOTHING, &no_files()).is_err());
    assert_eq!(args.check(FILE, &no_files()), Err(CheckError::FontScale));
}

#[test]
fn test_check_rejects_missing_font_file() {
    let mut args = default_overlay();
    args.render.font = vec!["definitely_missing_font.ttf".to_string()];
    let files = RenderFiles { fonts: vec![NOTHING], ..no_files() };
    assert!(args.check(FILE, &files).is_err());
    args.render.font = vec!["/tmp".to_string()];
    let files = RenderFiles { fonts: vec![DIR], ..no_files() };
    assert!(args.check(FILE, &files).is_err()); // 目录不允许
    args.render.font = vec![];
    assert!(args.check(FILE, &no_files()).is_ok());
}

#[test]
fn test_check_bottom_must_be_greater_than_top() {
    let mut args = default_overlay();
    args.render.top_ratio = double(0.5);
    args.render.bottom_ratio = double(0.3);
    assert!(args.check(NOTHING, &no_files()).is_err());
    assert_eq!(args.check(FILE, &no_files()), Err(CheckError::RatioOrder));
}

#[test]
fn test_check_range() {
    let mut args = default_overlay();
    args.range = Some("1:23-5:00".to_string());
    assert!(args.check(FILE, &no_files()).is_ok());
    args.range = Some("162:12".to_string());
    assert!(args.check(FILE, &no_files()).is_ok());
    args.range = Some("10-5".to_string());
    assert!(args.check(FILE, &no_files()).is_err());
}

#[test]
fn test_check_audio_conflicts() {
    let mut args = default_overlay();
    args.render.audio = Some("audio.m4a".to_string());
    args.render.no_audio = true;
    assert!(args.check(FILE, &no_files()).is_err());
    args.render.audio = None;
    args.render.audio_range = Some("5-10".to_string());
    args.render.no_audio = true;
    assert!(args.check(FILE, &no_files()).is_err());
    args.render.no_audio = false;
    assert!(args.check(FILE, &no_files()).is_ok());
}

#[test]
fn test_check_capture_spec() {
    let mut args = CaptureArgs {
        capture: "gdigrab:".to_string(),
        range: "30".to_string(),
        output: "out.mp4".to_string(),
        render: default_render(),
    };
    assert!(args.check(&no_files()).is_err()); // URL 为空
    assert_eq!(args.check(&no_files()), Err(CheckError::CaptureUrl));
    args.capture = "gdigrab:desktop".to_string();
    assert!(args.check(&no_files()).is_ok());
}

fn fault(change: impl Fn(&mut RenderOptions), files: RenderFiles) -> CheckError {
    let mut options = default_render();
    change(&mut options);
    options.check(&files).unwrap_err()
}

#[test]
fn each_fault_of_the_options_is_told() {
    let xml = |o: &mut RenderOptions| o.source.xml = Some("x.xml".to_string());
    let xml_files = |facts, ext: Option<&str>| RenderFiles {
        xml: facts,
        xml_extension: ext.map(String::from),
        ..no_files()
    };
    assert_eq!(fault(xml, xml_files(NOTHING, Some("xml"))), CheckError::XmlMissing);
    assert_eq!(fault(xml, xml_files(FILE, Some("txt"))), CheckError::XmlExtension);
    assert_eq!(fault(xml, xml_files(FILE, None)), CheckError::XmlExtension);
    assert_eq!(fault(xml, xml_files(DIR, Some("xml"))), CheckError::XmlIsDir);
    let nan = |o: &mut RenderOptions| o.top_ratio = double(f64::NAN);
    assert_eq!(fault(nan, no_files()), CheckError::RatioNotNumber);
    let fonts = |o: &mut RenderOptions| o.font = vec!["a".to_string(), "b".to_string()];
    let files = RenderFiles { fonts: vec![FILE, NOTHING], ..no_files() };
    assert_eq!(fault(fonts, files), CheckError::FontMissing(1));
    let files = RenderFiles { fonts: vec![DIR, NOTHING], ..no_files() };
    assert_eq!(fault(fonts, files), CheckError::FontIsDir(0));
    let preset = |o: &mut RenderOptions| o.x264_preset = "bogus".to_string();
    assert_eq!(fault(preset, no_files()), CheckError::Preset);
    let fixed = |o: &mut RenderOptions| o.fixed_duration = double(0.0);
    assert_eq!(fault(fixed, no_files()), CheckError::FixedDuration);
    let audio = |o: &mut RenderOptions| o.audio = Some("a.m4a".to_string());
    assert_eq!(fault(audio, no_files()), CheckError::AudioMissing);
    assert_eq!(fault(audio, RenderFiles { audio: DIR, ..no_files() }), CheckError::AudioIsDir);
    let both = |o: &mut RenderOptions| {
        o.audio = Some("a.m4a".to_string());
        o.no_audio = true;
    };
    assert_eq!(fault(both, RenderFiles { audio: FILE, ..no_files() }), CheckError::AudioConflict);
    let range = |o: &mut RenderOptions| o.audio_range = Some(String::new());
    assert_eq!(fault(range, no_files()), CheckError::AudioRange(RangeError::Empty));
    let range = |o: &mut RenderOptions| {
        o.audio_range = Some("5-10".to_string());
        o.no_audio = true;
    };
    assert_eq!(fault(range, no_files()), CheckError::AudioRangeConflict);
}

#[test]
fn each_fault_of_an_overlay_is_told() {
    let mut args = default_overlay();
    assert_eq!(args.check(NOTHING, &no_files()), Err(CheckError::InputMissing));
    assert_eq!(args.check(DIR, &no_files()), Err(CheckError::InputIsDir));
    args.range = Some(String::new());
    assert_eq!(args.check(FILE, &no_files()), Err(CheckError::Range(RangeError::Empty)));
}

#[test]
fn output_names_are_made_up_or_refused() {
    let mut args = default_overlay();
    args.output = None;
    args.input = "clip.mp4".to_string();
    assert_eq!(args.check_output(), Ok(()));
    assert_eq!(args.output.as_deref(), Some("bili_add_on_clip.mp4"));
    args.output = None;
    args.input = "..".to_string();
    assert_eq!(args.check_output(), Err(OutputError::NoFileName));
    assert_eq!(args.output, None);
    for nameless in ["", "/", ".", "./", "../", "a/..", "a/../."] {
        args.input = nameless.to_string();
        assert_eq!(args.check_output(), Err(OutputError::NoFileName));
        assert_eq!(args.input, nameless);
        assert_eq!(args.output, None);
    }
    args.input = STDIN.to_string();
    assert_eq!(args.check_output(), Err(OutputError::StdinNeedsOutput));
    args.output = Some("given.mp4".to_string());
    assert_eq!(args.check_output(), Ok(()));
    assert_eq!(args.output.as_deref(), Some("given.mp4"));
    args.output = None;
    args.input = "a.mp4".to_string();
    let name = args.default_name(Some("a.mp4".to_string()));
    assert_eq!(name, Ok(Some("bili_add_on_a.mp4".to_string())));
}

#[test]
fn made_up_outputs_lie_beside_the_input() {
    let places = [
        ("videos/my_video.mp4", "videos"),
        ("/home/me/my_video.mp4", "/home/me"),
        ("../my_video.mp4", ".."),
        ("./my_video.mp4", "."),
        ("/my_video.mp4", "/"),
        ("my_video.mp4", ""),
        ("videos/my_video.mp4/", "videos"),
        ("videos/my_video.mp4/.", "videos"),
    ];
    for (input, dir) in places {
        let mut args = default_overlay();
        args.output = None;
        args.input = input.to_string();
        assert_eq!(args.check_output(), Ok(()));
        let output = args.output.clone().unwrap();
        let path = std::path::Path::new(&output);
        assert_eq!(path.parent().unwrap(), std::path::Path::new(dir));
        assert_eq!(file_name(&output), "bili_add_on_my_video.mp4");
        assert_eq!(args.input, input);
        assert_eq!(args.check_output(), Ok(()));
        assert_eq!(args.output, Some(output));
    }
}

#[test]
fn made_up_outputs_follow_the_platform() {
    let slash_only = [
        ("a\\b.mp4", "bili_add_on_a\\b.mp4"),
        ("dir/x:y.mp4", "dir/bili_add_on_x:y.mp4"),
        ("c:clip.mp4", "bili_add_on_c:clip.mp4"),
        ("//place/clip.mp4", "//place/bili_add_on_clip.mp4"),
        ("//clip.mp4", "/bili_add_on_clip.mp4"),
        ("a:/.//clip.mp4/./", "a:/bili_add_on_clip.mp4"),
        ("\\\\?\\c:\\clip.mp4", "bili_add_on_\\\\?\\c:\\clip.mp4"),
    ];
    let backslash_too = [
        ("a\\b.mp4", "a\\bili_add_on_b.mp4"),
        ("dir/x:y.mp4", "dir\\bili_add_on_x:y.mp4"),
        ("c:clip.mp4", "c:bili_add_on_clip.mp4"),
        ("c:\\.\\clip.mp4", "c:\\bili_add_on_clip.mp4"),
    ];
    let cases: &[(&str, &str)] =
        if std::path::is_separator('\\') { &backslash_too } else { &slash_only };
    for (input, output) in cases {
        let mut args = default_overlay();
        args.output = None;
        args.input = input.to_string();
        assert_eq!(args.check_output(), Ok(()));
        assert_eq!(args.output.as_deref(), Some(*output));
    }
}

#[test]
fn filters_are_regular_expressions() {
    let mut options = default_render();
    options.filter = None;
    assert!(options.parse_filters().is_none());
    options.filter = Some(vec!["a+".to_string(), "^b$".to_string()]);
    assert_eq!(options.parse_filters().unwrap().unwrap(), vec!["a+", "^b$"]);
    options.filter = Some(vec!["a+".to_string(), "(".to_string(), "[".to_string()]);
    let refused = options.parse_filters().unwrap().unwrap_err();
    assert_eq!(refused.pattern, "(");
    assert!(!refused.detail.is_empty());
}
