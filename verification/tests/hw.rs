use bili_add_on::hw::{EncoderPref, HwCodec};

#[test]
fn test_hw_codec_encoder_names() {
    assert_eq!(HwCodec::Nvenc.encoder_name(), "h264_nvenc");
    assert_eq!(HwCodec::Amf.encoder_name(), "h264_amf");
    assert_eq!(HwCodec::Qsv.encoder_name(), "h264_qsv");
}

#[test]
fn test_hw_codec_from_cli_valid() {
    assert_eq!(HwCodec::from_cli("nvenc"), Some(HwCodec::Nvenc));
    assert_eq!(HwCodec::from_cli("amf"), Some(HwCodec::Amf));
    assert_eq!(HwCodec::from_cli("qsv"), Some(HwCodec::Qsv));
}

#[test]
fn test_hw_codec_from_cli_invalid() {
    assert_eq!(HwCodec::from_cli("cuda"), None);
    assert_eq!(HwCodec::from_cli(""), None);
    assert_eq!(HwCodec::from_cli("auto"), None);
}

#[test]
fn test_hw_codec_all_contains_three() {
    assert_eq!(HwCodec::all().len(), 3);
}

#[test]
fn preferences_name_their_candidates() {
    let auto = EncoderPref::from_cli("auto").unwrap().candidates();
    assert_eq!(
        auto,
        vec![Some(HwCodec::Nvenc), Some(HwCodec::Amf), Some(HwCodec::Qsv), None]
    );
    let amf = EncoderPref::from_cli("amf").unwrap().candidates();
    assert_eq!(amf, vec![Some(HwCodec::Amf), None]);
    let software = EncoderPref::from_cli("software").unwrap().candidates();
    assert_eq!(software, vec![None]);
    assert!(EncoderPref::from_cli("cuda").is_none());
}
