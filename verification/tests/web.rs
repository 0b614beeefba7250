use bili_add_on::web::{
    choose_data, cid_from_reply, cid_url, danmaku_url, maybe_decompress, xml_from_reply, CidError,
};
use flate2::write::{DeflateEncoder, ZlibEncoder};
use flate2::Compression;
use std::io::Write;

fn deflated(data: &[u8]) -> Vec<u8> {
    let mut encoder = DeflateEncoder::new(Vec::new(), Compression::default());
    encoder.write_all(data).unwrap();
    encoder.finish().unwrap()
}

fn zlibbed(data: &[u8]) -> Vec<u8> {
    let mut encoder = ZlibEncoder::new(Vec::new(), Compression::default());
    encoder.write_all(data).unwrap();
    encoder.finish().unwrap()
}

#[test]
fn requests_go_to_the_right_place() {
    assert_eq!(
        cid_url("BV1fRNH6kEra"),
        "https://api.bilibili.com/x/web-interface/view?bvid=BV1fRNH6kEra"
    );
    assert_eq!(danmaku_url(17001), "https://comment.bilibili.com/17001.xml");
}

#[test]
fn the_number_of_a_video_is_read() {
    let reply = r#"{"code":0,"message":"0","data":{"cid":17001,"x":1}}"#;
    assert_eq!(cid_from_reply(reply).unwrap(), 17001);
}

#[test]
fn each_fault_of_a_reply_is_told() {
    assert!(matches!(cid_from_reply("{"), Err(CidError::BadJson { .. })));
    assert!(matches!(cid_from_reply("{}"), Err(CidError::NoCode)));
    assert!(matches!(cid_from_reply(r#"{"code":"0"}"#), Err(CidError::NoCode)));
    match cid_from_reply(r#"{"code":-404,"message":"啥都木有"}"#) {
        Err(CidError::Refused { code, message }) => {
            assert_eq!(code, -404);
            assert_eq!(message.as_deref(), Some("啥都木有"));
        }
        _ => panic!("not refused"),
    }
    match cid_from_reply(r#"{"code":1}"#) {
        Err(CidError::Refused { code, message }) => {
            assert_eq!(code, 1);
            assert_eq!(message, None);
        }
        _ => panic!("not refused"),
    }
    assert!(matches!(cid_from_reply(r#"{"code":0}"#), Err(CidError::NoCid)));
    assert!(matches!(cid_from_reply(r#"{"code":0,"data":{"cid":-1}}"#), Err(CidError::NoCid)));
}

#[test]
fn compressed_data_is_unpacked() {
    let plain = "<i><d p=\"1,1,25,1\">弹幕</d></i>".repeat(20).into_bytes();
    assert_eq!(maybe_decompress(&deflated(&plain)), plain);
    assert_eq!(zlibbed(&plain)[0], 0x78);
    assert_eq!(maybe_decompress(&zlibbed(&plain)), plain);
}

#[test]
fn other_data_stays_as_it_is() {
    assert_eq!(maybe_decompress(b""), b"");
    assert_eq!(maybe_decompress(b"<i></i>"), b"<i></i>");
    assert_eq!(maybe_decompress(b"x<i></i>"), b"x<i></i>");
    assert_eq!(maybe_decompress(&deflated(b"")), deflated(b""));
}

#[test]
fn the_first_kind_of_compression_that_fits_is_used() {
    assert_eq!(choose_data(&[0x78, 1], Some(vec![1]), Some(vec![2])), vec![1]);
    assert_eq!(choose_data(&[0x78, 1], Some(vec![]), Some(vec![2])), vec![2]);
    assert_eq!(choose_data(&[0x78, 1], None, None), vec![0x78, 1]);
    assert_eq!(choose_data(&[3, 1], Some(vec![1]), Some(vec![2])), vec![2]);
    assert_eq!(choose_data(&[3, 1], None, Some(vec![])), vec![3, 1]);
    assert_eq!(choose_data(&[], Some(vec![1]), Some(vec![2])), Vec::<u8>::new());
}

#[test]
fn a_reply_is_unpacked_and_decoded() {
    assert_eq!(xml_from_reply(&deflated("弹幕".as_bytes()), "text/xml"), "弹幕");
    let gbk = [0xCE, 0xD2, 0xCA, 0xC7];
    assert_eq!(xml_from_reply(&zlibbed(&gbk), "text/xml; charset=GBK"), "我是");
}
