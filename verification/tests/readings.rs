use bili_add_on::danmaku::{
    make_gradient, read_advanced, read_gradient, read_ordinary, read_style, DanmakuFault,
    DanmakuMode, Style,
};
use bili_add_on::document::{find_style, read_document, read_element, ParseError};
use bili_add_on::double::Double;
use bili_add_on::duration::Duration;
use bili_add_on::encoding::decode_as;
use bili_add_on::json::JsonItem;
use bili_add_on::markup::{known_name, mend};
use bili_add_on::pattern::Capture;
use bili_add_on::raster::Rgb;
use bili_add_on::timeline::{read_parts, TimeError};
use bili_add_on::web::{read_cid, CidError};
use bili_add_on::xml::XmlAttribute;

fn double(x: f64) -> Double {
    Double::from_bits(x.to_bits())
}

fn strings(v: &[&str]) -> Vec<String> {
    v.iter().map(|s| s.to_string()).collect()
}

fn number(x: f64) -> JsonItem {
    JsonItem { float: Some(double(x)), signed: None, whole: None, text: None }
}

fn whole(n: u64) -> JsonItem {
    JsonItem {
        float: Some(double(n as f64)),
        signed: i64::try_from(n).ok(),
        whole: Some(n),
        text: None,
    }
}

fn text(s: &str) -> JsonItem {
    JsonItem { float: None, signed: None, whole: None, text: Some(s.to_string()) }
}

fn nothing() -> JsonItem {
    JsonItem { float: None, signed: None, whole: None, text: None }
}

fn style(mode_id: usize) -> Style {
    Style {
        time: Duration::from_secs(1),
        mode_id,
        font_size: 25,
        color: Rgb([1, 2, 3]),
    }
}

#[test]
fn styles_are_read_from_their_parts() {
    let parts = strings(&["ignored", "1", "25", "66051", "more"]);
    let s = read_style(&parts, Some(double(1.5))).unwrap();
    assert_eq!(s.time.nanos, 1_500_000_000);
    assert_eq!(s.mode_id, 1);
    assert_eq!(s.font_size, 25);
    assert_eq!(s.color, Rgb([1, 2, 3]));
    assert_eq!(read_style(&parts, None).unwrap_err().fault, DanmakuFault::BadTime);
    let early = read_style(&parts, Some(double(-1.0))).unwrap_err();
    assert_eq!(early.fault, DanmakuFault::TimeOutOfRange);
}

#[test]
fn ordinary_danmaku_are_made_of_style_and_text() {
    let d = read_ordinary(style(5), "raw", Ok("text".to_string())).unwrap().unwrap();
    assert!(matches!(d.mode, DanmakuMode::Top));
    assert_eq!(d.text, "text");
    assert!(read_ordinary(style(8), "raw", Ok("text".to_string())).unwrap().is_none());
    let e = read_ordinary(style(5), "raw", Err("why".to_string())).unwrap_err();
    assert_eq!(e.fault, DanmakuFault::BadReference);
    assert_eq!((e.text.as_str(), e.detail.as_str()), ("raw", "why"));
}

#[test]
fn gradients_need_both_ends() {
    let g = make_gradient(Some(double(0.5)), Some(double(0.25)));
    assert_eq!((g.start, g.end), (double(0.5), double(0.25)));
    for g in [
        make_gradient(None, Some(double(0.5))),
        make_gradient(Some(double(0.5)), None),
        read_gradient(&vec![]),
        read_gradient(&vec![number(0.0), number(0.0), text("0.5")]),
        read_gradient(&vec![number(0.0), number(0.0), text("0.5-x")]),
        read_gradient(&vec![number(0.0), number(0.0), text("0.5-1-1")]),
        read_gradient(&vec![number(0.0), number(0.0), number(0.5)]),
    ] {
        assert_eq!((g.start, g.end), (double(1.0), double(1.0)));
    }
    let g = read_gradient(&vec![number(0.0), number(0.0), text("0.25-1e-1")]);
    assert_eq!((g.start, g.end), (double(1.0), double(1.0)));
    let g = read_gradient(&vec![number(0.0), number(0.0), text("0.25-0.1")]);
    assert_eq!((g.start, g.end), (double(0.25), double(0.1)));
}

#[test]
fn advanced_danmaku_are_made_of_their_items() {
    let items = vec![number(1.0), number(2.0), text("1-1"), number(3.5), text("raw"), number(5.0)];
    let gradient = read_gradient(&items);
    let d = read_advanced(style(7), &items, gradient, Ok("read".to_string())).unwrap().unwrap();
    assert_eq!(d.text, "read");
    match d.mode {
        DanmakuMode::Advance { x, y, duration, z_rotate, end_x, move_delay, .. } => {
            assert_eq!((x, y), (double(1.0), double(2.0)));
            assert_eq!(duration.nanos, 3_500_000_000);
            assert_eq!((z_rotate, end_x), (double(5.0), double(0.0)));
            assert_eq!(move_delay.nanos, 0);
        }
        _ => panic!("not advanced"),
    }
    let late = vec![number(1.0), number(2.0), text("1-1"), number(f64::INFINITY)];
    let gradient = read_gradient(&late);
    let e = read_advanced(style(7), &late, gradient, Ok(String::new())).unwrap_err();
    assert_eq!(e.fault, DanmakuFault::TimeOutOfRange);
    let e = read_advanced(style(7), &items, gradient, Err("why".to_string())).unwrap_err();
    assert_eq!(e.fault, DanmakuFault::BadReference);
}

#[test]
fn the_style_attribute_is_found_among_others() {
    let attribute = |key: &str, value: &str| {
        Some(XmlAttribute { key: key.as_bytes().to_vec(), value: value.as_bytes().to_vec() })
    };
    let attributes = vec![None, attribute("x", "1"), attribute("p", "2"), attribute("p", "3")];
    assert_eq!(find_style(&attributes), Some(b"2".to_vec()));
    assert_eq!(find_style(&vec![None, attribute("pp", "1")]), None);
}

#[test]
fn elements_are_read_from_their_parts() {
    let styles = || Ok("1,1,25,255".to_string());
    let d = read_element(styles(), Ok(b"text".to_vec()), 0).unwrap().unwrap();
    assert_eq!(d.text, "text");
    assert!(matches!(
        read_element(Err("why".to_string()), Ok(vec![]), 0),
        Err(ParseError::Attribute { .. })
    ));
    assert!(matches!(
        read_element(styles(), Err("why".to_string()), 0),
        Err(ParseError::Content { .. })
    ));
    match read_element(Ok(String::new()), Ok(vec![0xff]), 6) {
        Err(ParseError::Danmaku { index, preview, .. }) => {
            assert_eq!(index, 7);
            assert_eq!(preview, "\u{fffd}");
        }
        _ => panic!("not refused"),
    }
    assert_eq!(read_document(r#"<i><d p="1,1,25,1">x</d></i>"#).unwrap().len(), 1);
}

#[test]
fn tags_are_mended_where_they_stand() {
    let tag = |start: usize, end: usize, group: Option<&str>| Capture {
        start,
        end,
        group: group.map(String::from),
    };
    let xml = "a<b<i>c<d</i>e<f";
    let tags = vec![tag(3, 6, Some("i")), tag(9, 13, Some("i"))];
    assert_eq!(mend(xml, &tags), "a&lt;b<i>c<d</i>e&lt;f");
    assert_eq!(mend("<x>", &vec![tag(0, 3, Some("x"))]), "&lt;x>");
    assert_eq!(mend("<?x?>&", &vec![tag(0, 5, None)]), "<?x?>&");
    for name in [
        "i", "chatserver", "chatid", "mission", "maxlimit", "state", "real_name", "source", "ds", "d",
    ] {
        assert!(known_name(name));
    }
    for name in ["", "I", "dd", "b", "chat"] {
        assert!(!known_name(name));
    }
}

#[test]
fn times_are_read_from_their_parts() {
    let read = |v: &[&str], secs: Option<f64>| read_parts(&strings(v), secs.map(double));
    assert_eq!(read(&["1", "2", "3"], Some(3.0)), Ok(double(3723.0)));
    assert_eq!(read(&["2", "3"], Some(3.5)), Ok(double(123.5)));
    assert_eq!(read(&["3"], None), Err(TimeError::BadSeconds));
    assert_eq!(read(&["3"], Some(f64::NAN)), Err(TimeError::SecondsOutOfRange));
    assert_eq!(read(&["x", "3"], Some(3.0)), Err(TimeError::BadMinutes));
}

#[test]
fn replies_are_read_from_their_parts() {
    let code = |n| Ok(JsonItem { signed: Some(n), ..nothing() });
    assert_eq!(read_cid(code(0), Ok(nothing()), Ok(whole(17))).unwrap(), 17);
    assert!(matches!(
        read_cid(Err("why".to_string()), Ok(nothing()), Ok(whole(17))),
        Err(CidError::BadJson { .. })
    ));
    assert!(matches!(
        read_cid(Ok(nothing()), Ok(nothing()), Ok(whole(17))),
        Err(CidError::NoCode)
    ));
    assert!(matches!(
        read_cid(code(-1), Ok(text("no")), Ok(whole(17))),
        Err(CidError::Refused { code: -1, message: Some(_) })
    ));
    assert!(matches!(read_cid(code(0), Ok(nothing()), Ok(nothing())), Err(CidError::NoCid)));
}

#[test]
fn documents_are_read_by_their_content_type() {
    let gbk = [0xCE, 0xD2, 0xCA, 0xC7];
    assert_eq!(decode_as(&gbk, "text/xml"), "我是");
    assert_eq!(decode_as("我是".as_bytes(), "text/xml"), "我是");
    assert_ne!(decode_as("我是".as_bytes(), "text/xml; charset=gb18030"), "我是");
}
