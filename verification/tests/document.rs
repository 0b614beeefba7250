use bili_add_on::danmaku::{DanmakuFault, DanmakuMode};
use bili_add_on::document::{filter_danmakus, parse_danmakus, ParseError};
use bili_add_on::markup::{escape_text, fix_bili_xml};
use bili_add_on::raster::Rgb;

#[test]
fn test_danmaku_xml_format_compatibility() {
    // Verify B站's actual XML structure can be parsed correctly.
    let xml = format!(
        r#"<?xml version="1.0" encoding="UTF-8"?>
<i>
    <chatserver>chat.bilibili.com</chatserver>
    <chatid>17001</chatid>
    <mission>0</mission>
    <maxlimit>3000</maxlimit>
    <state>0</state>
    <real_name>0</real_name>
    <source>e-r</source>
    <d p="0.95400,1,25,16777215,1738389256,0,057b89f9,115610398131421632">{}</d>
    <d p="1.53600,4,18,65280,1738389257,0,09ace8a8,115610425619205632">{}</d>
    <d p="2.37500,5,25,255,1738389258,0,d332cc0f,115610230595687936">{}</d>
    <d p="3.77400,6,25,16711680,1738389259,0,0193b302,115610329733865984">{}</d>
    <d p="7.41500,9,25,13684944,1738389260,0,0102df42,115610320960305664">{}</d>
</i>"#,
        "普通滚动弹幕", "底部弹幕", "顶部弹幕", "逆向弹幕", "BAS弹幕",
    );

    let danmakus = parse_danmakus(xml).unwrap();
    assert_eq!(danmakus.len(), 5);

    assert!(matches!(danmakus[0].mode, DanmakuMode::Scroll));
    assert!(matches!(danmakus[1].mode, DanmakuMode::Bottom));
    assert!(matches!(danmakus[2].mode, DanmakuMode::Top));
    assert!(matches!(danmakus[3].mode, DanmakuMode::Reverse));
    assert!(matches!(danmakus[4].mode, DanmakuMode::Bas));

    assert_eq!(danmakus[0].text, "普通滚动弹幕");
    assert_eq!(danmakus[1].text, "底部弹幕");
    assert_eq!(danmakus[2].text, "顶部弹幕");
    assert_eq!(danmakus[3].text, "逆向弹幕");
    assert_eq!(danmakus[4].text, "BAS弹幕");
}

fn parse(xml: &str) -> Result<Vec<bili_add_on::danmaku::Danmaku>, ParseError> {
    parse_danmakus(xml.to_string())
}

#[test]
fn attributes_and_references_are_read() {
    let danmakus = parse(r#"<i><d x="1" p="1.5,1,25,&#50;55">a &lt; b</d></i>"#).unwrap();
    assert_eq!(danmakus.len(), 1);
    assert_eq!(danmakus[0].time.nanos, 1_500_000_000);
    assert_eq!(danmakus[0].color, Rgb([0, 0, 255]));
    assert_eq!(danmakus[0].text, "a < b");
}

#[test]
fn other_elements_and_unknown_modes_are_passed_over() {
    let danmakus =
        parse(r#"<i><chatid>1</chatid><d p="1,8,25,1">x</d><d p="1,1,25,1">y</d></i>"#).unwrap();
    assert_eq!(danmakus.len(), 1);
    assert_eq!(danmakus[0].text, "y");
    assert!(parse("<i></i>").unwrap().is_empty());
}

#[test]
fn a_bad_danmaku_is_told_with_its_place() {
    match parse(r#"<i><d p="1,1,25,1">y</d><d p="z,1,25,1">text</d></i>"#) {
        Err(ParseError::Danmaku { index, preview, cause }) => {
            assert_eq!(index, 2);
            assert_eq!(preview, "text");
            assert_eq!(cause.fault, DanmakuFault::BadTime);
            assert_eq!(cause.text, "z");
        }
        _ => panic!("not refused"),
    }
    let long = "弹".repeat(70);
    match parse(&format!(r#"<i><d p="">{long}</d></i>"#)) {
        Err(ParseError::Danmaku { preview, .. }) => {
            assert_eq!(preview, "弹".repeat(60) + "...");
        }
        _ => panic!("not refused"),
    }
}

#[test]
fn a_danmaku_without_an_attribute_has_no_time() {
    match parse("<i><d>text</d></i>") {
        Err(ParseError::Danmaku { cause, .. }) => assert_eq!(cause.fault, DanmakuFault::BadTime),
        _ => panic!("not refused"),
    }
}

#[test]
fn each_fault_of_a_document_is_told() {
    assert!(matches!(parse("<i></d></i>"), Err(ParseError::Xml { .. })));
    assert!(matches!(
        parse(r#"<i><d p="&unknown;">x</d></i>"#),
        Err(ParseError::Attribute { .. })
    ));
    assert!(matches!(parse(r#"<i><d p="1,1,25,1">x"#), Err(ParseError::Content { .. })));
}

#[test]
fn markup_between_elements_is_mended() {
    assert_eq!(escape_text("a & b < c > d"), "a &amp; b &lt; c > d");
    assert_eq!(fix_bili_xml("a & <b> <i>x</i>"), "a &amp; &lt;b> <i>x</i>");
    assert_eq!(fix_bili_xml("<i>a & <b></i>"), "<i>a & <b></i>");
    assert_eq!(fix_bili_xml("<d/>&"), "<d/>&amp;");
    assert_eq!(fix_bili_xml("</i></i>&<i>"), "</i></i>&amp;<i>");
    assert_eq!(fix_bili_xml(""), "");
}

#[test]
fn plain_xml_stays_as_it_is() {
    let xml = r#"<i><d p="1,1,25,1">x</d></i>"#;
    assert_eq!(fix_bili_xml(xml), xml);
}

#[test]
fn filters_drop_what_they_match() {
    let xml = r#"<i><d p="1,1,25,1">abc</d><d p="2,1,25,1">xyz</d><d p="3,1,25,1">123</d></i>"#;
    let patterns = |v: &[&str]| -> Vec<String> { v.iter().map(|s| s.to_string()).collect() };
    let kept = filter_danmakus(parse(xml).unwrap(), &patterns(&["b", "^x.z$"])).unwrap();
    assert_eq!(kept.len(), 1);
    assert_eq!(kept[0].text, "123");
    let kept = filter_danmakus(parse(xml).unwrap(), &patterns(&[])).unwrap();
    assert_eq!(kept.len(), 3);
    let refused = filter_danmakus(parse(xml).unwrap(), &patterns(&["b", "("])).unwrap_err();
    assert_eq!(refused.pattern, "(");
    assert!(!refused.detail.is_empty());
}
