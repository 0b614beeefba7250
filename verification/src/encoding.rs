//! Bytes read as text.

use crate::text::{contains_text, occurs};
use std::borrow::Cow;
use vstd::prelude::*;
use vstd::utf8::{
    decode_utf8, encode_utf8, encode_utf8_decode_utf8, encode_utf8_valid_utf8, valid_utf8,
};

verus! {

/// The bytes are not UTF-8.
#[derive(Clone, Copy, Debug, PartialEq, Eq)]
pub struct NotUtf8;

/// `bytes` read as GBK, unless they start with the byte order mark of a Unicode encoding, which is
/// read instead; what cannot be read is marked by replacement characters.
pub uninterp spec fn gbk_text(bytes: Seq<u8>) -> Seq<char>;

/// A text in lower case.
pub uninterp spec fn lowercase(text: Seq<char>) -> Seq<char>;

/// `bytes` read as UTF-8, with replacement characters for what is not.
pub uninterp spec fn lossy_text(bytes: Seq<u8>) -> Seq<char>;

/// `std::str::from_utf8`: the text whose UTF-8 encoding the bytes are, if they are one.
#[verifier::external_body]
pub(crate) fn utf8_text(bytes: &[u8]) -> (text: Option<&str>)
    ensures
        text is Some <==> valid_utf8(bytes@),
        text is Some ==> text->0@ == decode_utf8(bytes@),
{
    std::str::from_utf8(bytes).ok()
}

/// `String::from_utf8_lossy`. The outcome, which depends on the bytes alone, has the name
/// [`lossy_text`]; for the UTF-8 encoding of a text it is that text.
#[verifier::external_body]
pub(crate) fn read_lossy(bytes: &[u8]) -> (text: String)
    ensures
        text@ == lossy_text(bytes@),
        valid_utf8(bytes@) ==> text@ == decode_utf8(bytes@),
{
    String::from_utf8_lossy(bytes).into_owned()
}

/// `encoding_rs::GBK.decode`. The outcome, which depends on the bytes alone, has the name
/// [`gbk_text`].
#[verifier::external_body]
pub(crate) fn read_gbk(bytes: &[u8]) -> (text: String)
    ensures
        text@ == gbk_text(bytes@),
{
    encoding_rs::GBK.decode(bytes).0.into_owned()
}

/// `str::to_lowercase`. The outcome, which depends on the text alone, has the name [`lowercase`].
#[verifier::external_body]
pub(crate) fn to_lowercase(text: &str) -> (lower: String)
    ensures
        lower@ == lowercase(text@),
{
    text.to_lowercase()
}

/// A content type, in lower case, that declares one of the GB encodings.
pub open spec fn declares_gb(lower: Seq<char>) -> bool {
    occurs(lower, "gbk"@) || occurs(lower, "gb2312"@) || occurs(lower, "gb18030"@)
}

/// What the bytes of a document say whose content type, in lower case, is `lower`: they are read as
/// GBK if that is declared, and else as UTF-8 if they are that, and else as GBK.
pub open spec fn document_text(bytes: Seq<u8>, lower: Seq<char>) -> Seq<char> {
    if !declares_gb(lower) && valid_utf8(bytes) {
        decode_utf8(bytes)
    } else {
        gbk_text(bytes)
    }
}

/// Reads the bytes of a document whose content type, in lower case, is `lower`.
pub fn decode_as(bytes: &[u8], lower: &str) -> (text: String)
    ensures
        text@ == document_text(bytes@, lower@),
{
    if contains_text(lower, "gbk") || contains_text(lower, "gb2312") || contains_text(
        lower,
        "gb18030",
    ) {
        return read_gbk(bytes);
    }
    match utf8_text(bytes) {
        Some(text) => text.to_owned(),
        None => read_gbk(bytes),
    }
}

/// Reads the bytes of a document of the given content type.
pub fn decode_bytes(bytes: &[u8], content_type: &str) -> (text: String)
    ensures
        text@ == document_text(bytes@, lowercase(content_type@)),
{
    let lower = to_lowercase(content_type);
    decode_as(bytes, lower.as_str())
}

/// Reads bytes as UTF-8.
pub fn cow_u8_to_str(data: Cow<'_, [u8]>) -> (text: Result<Cow<'_, str>, NotUtf8>)
    ensures
        text is Ok <==> valid_utf8(data@),
        text is Ok ==> text->Ok_0@ == decode_utf8(data@),
        text is Ok ==> (text->Ok_0 is Borrowed <==> data is Borrowed),
{
    match data {
        Cow::Borrowed(bytes) => match utf8_text(bytes) {
            Some(text) => Ok(Cow::Borrowed(text)),
            None => Err(NotUtf8),
        },
        Cow::Owned(vec) => match utf8_text(vec.as_slice()) {
            Some(text) => Ok(Cow::Owned(text.to_owned())),
            None => Err(NotUtf8),
        },
    }
}

/// A value whose result is of no interest.
pub trait Ignore {
    /// Drops the value.
    fn ignore(self) where Self: Sized;
}

impl<T> Ignore for T {
    fn ignore(self) where Self: Sized {
    }
}

/// A text that is sent in UTF-8, without a GB encoding being declared, is read as it was written.
pub proof fn law_utf8_reads_as_written(text: Seq<char>, lower: Seq<char>)
    requires
        !occurs(lower, "gbk"@),
        !occurs(lower, "gb2312"@),
        !occurs(lower, "gb18030"@),
    ensures
        document_text(encode_utf8(text), lower) == text,
{
    encode_utf8_valid_utf8(text);
    encode_utf8_decode_utf8(text);
}

/// Bytes are read as GBK where one of its family is declared, whatever they are, and where they are
/// not UTF-8.
pub proof fn law_declared_gb_is_gbk(bytes: Seq<u8>, lower: Seq<char>)
    requires
        occurs(lower, "gbk"@) || occurs(lower, "gb2312"@) || occurs(lower, "gb18030"@)
            || !valid_utf8(bytes),
    ensures
        document_text(bytes, lower) == gbk_text(bytes),
{
}

} // verus!
