use bili_add_on::workflow::{
    audio_notice, audio_origin, decide_audio, device_input_spec, fallback_rate, input_spec,
    plan_finish, AudioFault, AudioOrigin, DeviceError, Finish, InputKind,
};

#[test]
fn inputs_are_files_or_the_standard_input() {
    let spec = input_spec(":STDIN:");
    assert_eq!(spec.kind, InputKind::Stdin);
    assert_eq!(spec.url, "pipe:0");
    assert_eq!(spec.format, None);
    let spec = input_spec("a.mp4");
    assert_eq!(spec.kind, InputKind::File);
    assert_eq!(spec.url, "a.mp4");
    assert_eq!(spec.format, None);
}

fn device(spec: &str, os: &str) -> (String, String) {
    let spec = device_input_spec(spec, os).unwrap();
    assert_eq!(spec.kind, InputKind::Device);
    (spec.url, spec.format.unwrap())
}

fn pair(url: &str, format: &str) -> (String, String) {
    (url.to_string(), format.to_string())
}

#[test]
fn devices_are_named_in_full() {
    for os in ["windows", "linux", "macos", "freebsd"] {
        assert_eq!(device("dshow:video=USB Camera", os), pair("video=USB Camera", "dshow"));
        assert_eq!(device("avfoundation:0:none", os), pair("0:none", "avfoundation"));
        assert_eq!(device("x11grab::0.0", os), pair(":0.0", "x11grab"));
    }
    assert_eq!(device_input_spec("gdigrab:", "linux").err(), Some(DeviceError::EmptyPart));
    assert_eq!(device_input_spec(":desktop", "linux").err(), Some(DeviceError::EmptyPart));
}

#[test]
fn devices_have_defaults_on_each_platform() {
    assert_eq!(device("desktop", "windows"), pair("desktop", "gdigrab"));
    assert_eq!(device("screen", "linux"), pair(":0.0", "x11grab"));
    assert_eq!(device("desktop", "macos"), pair("1:none", "avfoundation"));
    assert_eq!(device("USB Camera", "windows"), pair("video=USB Camera", "dshow"));
    assert_eq!(device("/dev/video0", "linux"), pair("/dev/video0", "v4l2"));
    assert_eq!(device("FaceTime", "macos"), pair("FaceTime", "avfoundation"));
    assert_eq!(device_input_spec("screen", "freebsd").err(), Some(DeviceError::NoScreen));
    assert_eq!(device_input_spec("camera", "freebsd").err(), Some(DeviceError::NoCamera));
}

#[test]
fn given_audio_comes_before_that_of_the_video() {
    assert_eq!(audio_origin(false, true, InputKind::File), AudioOrigin::Given);
    assert_eq!(audio_origin(false, true, InputKind::Stdin), AudioOrigin::Given);
    assert_eq!(audio_origin(false, false, InputKind::File), AudioOrigin::Video);
    assert_eq!(audio_origin(false, false, InputKind::Stdin), AudioOrigin::Nowhere);
    assert_eq!(audio_origin(false, false, InputKind::Device), AudioOrigin::Nowhere);
    assert_eq!(audio_origin(true, true, InputKind::File), AudioOrigin::Nowhere);
}

#[test]
fn given_audio_must_be_there() {
    assert_eq!(decide_audio(AudioOrigin::Given, Some(true)), Ok(true));
    assert_eq!(decide_audio(AudioOrigin::Given, Some(false)), Err(AudioFault::NoStream));
    assert_eq!(decide_audio(AudioOrigin::Given, None), Err(AudioFault::Unreadable));
    assert_eq!(decide_audio(AudioOrigin::Video, Some(true)), Ok(true));
    assert_eq!(decide_audio(AudioOrigin::Video, Some(false)), Ok(false));
    assert_eq!(decide_audio(AudioOrigin::Video, None), Ok(false));
    assert_eq!(decide_audio(AudioOrigin::Nowhere, Some(true)), Ok(false));
}

#[test]
fn missing_audio_is_told() {
    assert_eq!(audio_notice(false, false, false, InputKind::Stdin, false), Some("stdin_audio_skipped"));
    assert_eq!(audio_notice(false, false, false, InputKind::Device, true), Some("device_audio_skipped"));
    assert_eq!(audio_notice(false, false, false, InputKind::File, true), Some("audio_range_ignored"));
    assert_eq!(audio_notice(false, false, false, InputKind::File, false), None);
    assert_eq!(audio_notice(true, false, false, InputKind::Stdin, false), None);
    assert_eq!(audio_notice(false, true, false, InputKind::Stdin, false), None);
    assert_eq!(audio_notice(false, false, true, InputKind::Stdin, false), None);
}

#[test]
fn the_result_goes_where_it_should() {
    assert_eq!(plan_finish(":STDOUT:", false), Finish::Stream);
    assert_eq!(plan_finish(":STDOUT:", true), Finish::MergeAndStream);
    assert_eq!(plan_finish("out.mp4", false), Finish::Move);
    assert_eq!(plan_finish("out.mp4", true), Finish::MergeIntoOutput);
}

#[test]
fn devices_have_a_frame_rate_to_fall_back_on() {
    let rate = fallback_rate(InputKind::Device).unwrap();
    assert_eq!(f64::from_bits(rate.to_bits()), 25.0);
    assert!(fallback_rate(InputKind::File).is_none());
    assert!(fallback_rate(InputKind::Stdin).is_none());
}
