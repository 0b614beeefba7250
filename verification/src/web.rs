//! What is asked of the Bilibili servers, and how their replies are read.

use crate::encoding::{decode_bytes, document_text, lowercase};
use crate::json::{json_pointer, read_json_pointer, JsonItem, JsonView};
use crate::text::{decimal, write_decimal};
use vstd::prelude::*;
use vstd::string::*;

verus! {

/// Where to ask for the description of a video.
pub fn cid_url(bvid: &str) -> (url: String)
    ensures
        url@ == "https://api.bilibili.com/x/web-interface/view?bvid="@ + bvid@,
{
    let mut url = "https://api.bilibili.com/x/web-interface/view?bvid=".to_owned();
    url.append(bvid);
    url
}

/// Where to ask for the danmaku of a video part.
pub fn danmaku_url(cid: u64) -> (url: String)
    ensures
        url@ == "https://comment.bilibili.com/"@ + decimal(cid as nat) + ".xml"@,
{
    let mut url = "https://comment.bilibili.com/".to_owned();
    let number = write_decimal(cid);
    url.append(number.as_str());
    url.append(".xml");
    url
}

/// Why a reply names no video part.
#[derive(Debug)]
pub enum CidError {
    /// The reply is not JSON.
    BadJson { detail: String },
    /// The reply has no code.
    NoCode,
    /// The reply is an error, with its message if it has one.
    Refused { code: i64, message: Option<String> },
    /// The reply names no video part.
    NoCid,
}

/// What a [`CidError`] says.
pub enum CidErrorView {
    BadJson { detail: Seq<char> },
    NoCode,
    Refused { code: i64, message: Option<Seq<char>> },
    NoCid,
}

impl View for CidError {
    type V = CidErrorView;

    open spec fn view(&self) -> CidErrorView {
        match self {
            CidError::BadJson { detail } => CidErrorView::BadJson { detail: detail@ },
            CidError::NoCode => CidErrorView::NoCode,
            CidError::Refused { code, message } => CidErrorView::Refused {
                code: *code,
                message: match message {
                    Some(m) => Some(m@),
                    None => None,
                },
            },
            CidError::NoCid => CidErrorView::NoCid,
        }
    }
}

/// What the outcome of a reply says.
pub open spec fn cid_view(r: Result<u64, CidError>) -> Result<u64, CidErrorView> {
    match r {
        Ok(cid) => Ok(cid),
        Err(e) => Err(e@),
    }
}

/// What the outcome of looking a value up says.
pub open spec fn item_view(r: Result<JsonItem, String>) -> Result<JsonView, Seq<char>> {
    match r {
        Ok(item) => Ok(item@),
        Err(m) => Err(m@),
    }
}

/// The video part that a reply with the given code, message and part number names.
pub open spec fn cid_of(
    code: Result<JsonView, Seq<char>>,
    message: Result<JsonView, Seq<char>>,
    cid: Result<JsonView, Seq<char>>,
) -> Result<u64, CidErrorView> {
    match (code, message, cid) {
        (Ok(code), Ok(message), Ok(cid)) => match code.signed {
            None => Err(CidErrorView::NoCode),
            Some(c) => if c != 0 {
                Err(CidErrorView::Refused { code: c, message: message.text })
            } else {
                match cid.whole {
                    Some(cid) => Ok(cid),
                    None => Err(CidErrorView::NoCid),
                }
            },
        },
        (Err(detail), _, _) => Err(CidErrorView::BadJson { detail }),
        (_, Err(detail), _) => Err(CidErrorView::BadJson { detail }),
        (_, _, Err(detail)) => Err(CidErrorView::BadJson { detail }),
    }
}

/// Reads the video part out of the code, the message and the part number of a reply.
pub fn read_cid(
    code: Result<JsonItem, String>,
    message: Result<JsonItem, String>,
    cid: Result<JsonItem, String>,
) -> (r: Result<u64, CidError>)
    ensures
        cid_view(r) == cid_of(item_view(code), item_view(message), item_view(cid)),
{
    let code = match code {
        Ok(code) => code,
        Err(detail) => {
            return Err(CidError::BadJson { detail });
        },
    };
    let message = match message {
        Ok(message) => message,
        Err(detail) => {
            return Err(CidError::BadJson { detail });
        },
    };
    let cid = match cid {
        Ok(cid) => cid,
        Err(detail) => {
            return Err(CidError::BadJson { detail });
        },
    };
    match code.signed {
        None => Err(CidError::NoCode),
        Some(c) => if c != 0 {
            Err(CidError::Refused { code: c, message: message.text })
        } else {
            match cid.whole {
                Some(cid) => Ok(cid),
                None => Err(CidError::NoCid),
            }
        },
    }
}

/// Reads the video part that a reply names.
pub fn cid_from_reply(text: &str) -> (cid: Result<u64, CidError>)
    ensures
        cid_view(cid) == cid_of(
            json_pointer(text@, "/code"@),
            json_pointer(text@, "/message"@),
            json_pointer(text@, "/data/cid"@),
        ),
{
    read_cid(
        read_json_pointer(text, "/code"),
        read_json_pointer(text, "/message"),
        read_json_pointer(text, "/data/cid"),
    )
}

/// The data of which `bytes` is a zlib stream, if it is one.
pub uninterp spec fn zlib_inflated(bytes: Seq<u8>) -> Option<Seq<u8>>;

/// The data of which `bytes` is a raw deflate stream, if it is one.
pub uninterp spec fn raw_inflated(bytes: Seq<u8>) -> Option<Seq<u8>>;

/// `flate2::read::ZlibDecoder`, read to its end. The outcome, which depends on the bytes alone, has
/// the name [`zlib_inflated`].
#[verifier::external_body]
pub(crate) fn inflate_zlib(bytes: &[u8]) -> (data: Option<Vec<u8>>)
    ensures
        match data {
            Some(v) => zlib_inflated(bytes@) == Some(v@),
            None => zlib_inflated(bytes@) is None,
        },
{
    let mut data = Vec::new();
    match std::io::Read::read_to_end(&mut flate2::read::ZlibDecoder::new(bytes), &mut data) {
        Ok(_) => Some(data),
        Err(_) => None,
    }
}

/// `flate2::read::DeflateDecoder`, read to its end. The outcome, which depends on the bytes alone,
/// has the name [`raw_inflated`].
#[verifier::external_body]
pub(crate) fn inflate_raw(bytes: &[u8]) -> (data: Option<Vec<u8>>)
    ensures
        match data {
            Some(v) => raw_inflated(bytes@) == Some(v@),
            None => raw_inflated(bytes@) is None,
        },
{
    let mut data = Vec::new();
    match std::io::Read::read_to_end(&mut flate2::read::DeflateDecoder::new(bytes), &mut data) {
        Ok(_) => Some(data),
        Err(_) => None,
    }
}

/// Whether inflating gave any data.
pub open spec fn gave_data(inflated: Option<Seq<u8>>) -> bool {
    inflated is Some && inflated->0.len() > 0
}

/// What a reply holds, given what comes of inflating it as a zlib stream and as a raw deflate
/// stream: what was inflated, where that gave any data and, for zlib, where the first byte says so;
/// else what was sent.
pub open spec fn reply_data(
    sent: Seq<u8>,
    zlib: Option<Seq<u8>>,
    raw: Option<Seq<u8>>,
) -> Seq<u8> {
    if sent.len() == 0 {
        sent
    } else if sent[0] == 0x78 && gave_data(zlib) {
        zlib->0
    } else if gave_data(raw) {
        raw->0
    } else {
        sent
    }
}

/// What the outcome of inflating says.
pub open spec fn data_view(data: Option<Vec<u8>>) -> Option<Seq<u8>> {
    match data {
        Some(v) => Some(v@),
        None => None,
    }
}

/// Chooses what a reply holds, given what comes of inflating it.
pub fn choose_data(sent: &[u8], zlib: Option<Vec<u8>>, raw: Option<Vec<u8>>) -> (data: Vec<u8>)
    ensures
        data@ == reply_data(sent@, data_view(zlib), data_view(raw)),
{
    if sent.len() > 0 {
        if sent[0] == 0x78 {
            if let Some(v) = zlib {
                if v.len() > 0 {
                    return v;
                }
            }
        }
        if let Some(v) = raw {
            if v.len() > 0 {
                return v;
            }
        }
    }
    vstd::slice::slice_to_vec(sent)
}

/// Inflates what a reply holds, if it is compressed.
pub fn maybe_decompress(data: &[u8]) -> (plain: Vec<u8>)
    ensures
        plain@ == reply_data(data@, zlib_inflated(data@), raw_inflated(data@)),
{
    if data.len() == 0 {
        return choose_data(data, None, None);
    }
    let zlib = if data[0] == 0x78 {
        inflate_zlib(data)
    } else {
        None
    };
    let inflated = match &zlib {
        Some(v) => v.len() > 0,
        None => false,
    };
    if inflated {
        choose_data(data, zlib, None)
    } else {
        choose_data(data, None, inflate_raw(data))
    }
}

/// Reads the document that a reply holds.
pub fn xml_from_reply(body: &[u8], content_type: &str) -> (xml: String)
    ensures
        xml@ == document_text(
            reply_data(body@, zlib_inflated(body@), raw_inflated(body@)),
            lowercase(content_type@),
        ),
{
    let data = maybe_decompress(body);
    decode_bytes(data.as_slice(), content_type)
}

/// A reply names a video part exactly if its code is zero and it has a part number; a code other than
/// zero is told, with the message.
pub proof fn law_part_is_named_by_good_replies(
    code: JsonView,
    message: JsonView,
    cid: JsonView,
)
    ensures
        match cid_of(Ok(code), Ok(message), Ok(cid)) {
            Ok(n) => code.signed == Some(0i64) && cid.whole == Some(n),
            Err(CidErrorView::Refused { code: c, message: m }) => c != 0 && code.signed == Some(c)
                && m == message.text,
            Err(CidErrorView::NoCode) => code.signed is None,
            Err(CidErrorView::NoCid) => code.signed == Some(0i64) && cid.whole is None,
            Err(CidErrorView::BadJson { .. }) => false,
        },
{
}

/// What a reply holds is one of what was sent and what inflating gave; data that inflating gave is
/// never passed over for what was sent, and nothing is lost: a reply that was not empty holds
/// something.
pub proof fn law_reply_is_kept_or_inflated(
    sent: Seq<u8>,
    zlib: Option<Seq<u8>>,
    raw: Option<Seq<u8>>,
)
    ensures
        ({
            let data = reply_data(sent, zlib, raw);
            &&& data == sent || zlib == Some(data) || raw == Some(data)
            &&& sent.len() > 0 ==> data.len() > 0
            &&& sent.len() > 0 && raw is Some && raw->0.len() > 0 ==> zlib == Some(data) || raw
                == Some(data)
            &&& sent.len() > 0 && sent[0] == 0x78 && zlib is Some && zlib->0.len() > 0 ==> zlib
                == Some(data)
            &&& sent.len() > 0 && sent[0] != 0x78 && (raw is None || raw->0.len() == 0) ==> data
                == sent
        }),
{
}

} // verus!
