use bili_add_on::i18n::{lang_arg_from, Lang};

#[test]
fn test_detect_explicit() {
    assert_eq!(Lang::detect(Some("zh")), Lang::Zh);
    assert_eq!(Lang::detect(Some("en")), Lang::En);
}

#[test]
fn test_detect_auto_falls_back_to_system_locale() {
    let lang = Lang::detect(Some("auto"));
    assert!(matches!(lang, Lang::Zh | Lang::En));
    let lang = Lang::detect(None);
    assert!(matches!(lang, Lang::Zh | Lang::En));
}

#[test]
fn test_runtime_message_bilingual() {
    let zh = Lang::Zh.t_fmt("parsed_danmakus", 42);
    let en = Lang::En.t_fmt("parsed_danmakus", 42);
    assert!(zh.contains("42"));
    assert!(en.contains("42"));
    assert!(zh.contains('弹'));
    assert!(en.contains("danmakus"));
}

#[test]
fn test_unknown_key_passthrough() {
    assert_eq!(Lang::En.t("no_such_key"), "no_such_key");
}

#[test]
fn test_arg_help_english_only() {
    assert_eq!(Lang::Zh.arg_help("input"), None);
    let en = Lang::En.arg_help("input").unwrap();
    assert!(en.contains("Input video file path"));
    assert_eq!(Lang::En.arg_help("no_such_arg"), None);
}

fn argv(args: &[&str]) -> Vec<String> {
    args.iter().map(|s| s.to_string()).collect()
}

#[test]
fn test_parse_with_locale_returns_lang() {
    let en = argv(&[
        "bili_add_on", "overlay", "--input", "v.mp4", "--bvid", "BV1test", "--lang", "en",
    ]);
    assert_eq!(Lang::detect(lang_arg_from(&en).as_deref()), Lang::En);
    let zh = argv(&[
        "bili_add_on", "overlay", "--input", "v.mp4", "--bvid", "BV1test", "--lang", "zh",
    ]);
    assert_eq!(Lang::detect(lang_arg_from(&zh).as_deref()), Lang::Zh);
}

#[test]
fn the_language_argument_is_found() {
    assert_eq!(lang_arg_from(&argv(&["p", "--lang=zh"])).as_deref(), Some("zh"));
    assert_eq!(lang_arg_from(&argv(&["p", "--lang", "en"])).as_deref(), Some("en"));
    assert_eq!(lang_arg_from(&argv(&["p", "--lang"])), None);
    assert_eq!(lang_arg_from(&argv(&["--lang", "en"])), None);
    assert_eq!(lang_arg_from(&argv(&["p", "--language", "en"])), None);
    assert_eq!(lang_arg_from(&argv(&[])), None);
}

#[test]
fn the_locale_decides_when_nothing_is_asked_for() {
    assert_eq!(Lang::detect_with_locale(None, Some("zh-CN")), Lang::Zh);
    assert_eq!(Lang::detect_with_locale(None, Some("ZH_TW")), Lang::Zh);
    assert_eq!(Lang::detect_with_locale(Some("auto"), Some("en-US")), Lang::En);
    assert_eq!(Lang::detect_with_locale(None, None), Lang::En);
    assert_eq!(Lang::detect_with_locale(Some("en"), Some("zh-CN")), Lang::En);
    assert_eq!(Lang::detect_with_locale(Some("zh"), Some("en-US")), Lang::Zh);
}

#[test]
fn values_fill_their_place() {
    assert_eq!(Lang::En.fill("done_in", "1.5"), "Done in 1.5 seconds");
    assert_eq!(Lang::Zh.t_fmt("filtered_out", 3), "滤过 3 个");
    assert_eq!(Lang::En.t("codec_ready"), "Codecs ready");
    assert_eq!(Lang::Zh.t("codec_ready"), "编解码器已就绪");
}
