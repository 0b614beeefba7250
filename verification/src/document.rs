//! Danmaku documents: XML files with one element per bullet comment.

use crate::danmaku::{
    danmaku_of, head, head_of, reading_view, text_view, Danmaku, DanmakuError, DanmakuView, ErrorView,
};
use crate::duration::MAX_NANOS;
use crate::encoding::{lossy_text, read_lossy};
use crate::markup::{fix_bili_xml, mended};
use crate::options::{bad_filter, FilterError};
use crate::pattern::{match_all, regex_captures, regex_matches, TAG_PATTERN};
use crate::text::{bytes_eq, texts};
use crate::xml::{
    attribute_view, attribute_views, next_xml_event, normalize_attribute, open_xml, read_xml_text,
    xml_attribute_value, xml_event, xml_reads, xml_source, xml_text, XmlAttribute, XmlEvent,
    XmlEventView,
};
use std::borrow::Cow;
use vstd::prelude::*;
use vstd::string::*;
use vstd::utf8::encode_utf8;

verus! {

/// Why a document cannot be read.
#[derive(Debug)]
pub enum ParseError {
    /// The XML is not well-formed.
    Xml { detail: String },
    /// The attribute of a bullet comment cannot be decoded.
    Attribute { detail: String },
    /// The content of a bullet comment cannot be read.
    Content { detail: String },
    /// A bullet comment cannot be read: which one, counted from one, and how its text begins.
    Danmaku { index: usize, preview: String, cause: DanmakuError },
}

/// What a [`ParseError`] says.
pub enum ParseErrorView {
    Xml { detail: Seq<char> },
    Attribute { detail: Seq<char> },
    Content { detail: Seq<char> },
    Danmaku { index: nat, preview: Seq<char>, cause: ErrorView },
}

impl View for ParseError {
    type V = ParseErrorView;

    open spec fn view(&self) -> ParseErrorView {
        match self {
            ParseError::Xml { detail } => ParseErrorView::Xml { detail: detail@ },
            ParseError::Attribute { detail } => ParseErrorView::Attribute { detail: detail@ },
            ParseError::Content { detail } => ParseErrorView::Content { detail: detail@ },
            ParseError::Danmaku { index, preview, cause } => ParseErrorView::Danmaku {
                index: *index as nat,
                preview: preview@,
                cause: cause@,
            },
        }
    }
}

/// What the bullet comments of a list say.
pub open spec fn danmaku_views(v: Seq<Danmaku>) -> Seq<DanmakuView> {
    v.map_values(|d: Danmaku| d@)
}

/// The times of all danmaku can be put on a timeline.
pub open spec fn times_fit(danmakus: Seq<DanmakuView>) -> bool {
    forall|i: int| 0 <= i < danmakus.len() ==> (#[trigger] danmakus[i]).time.nanos <= MAX_NANOS
}

/// The name of the element that holds a bullet comment.
pub open spec fn is_danmaku_name(name: Seq<u8>) -> bool {
    name == seq![0x64u8]
}

/// The key of the attribute that styles a bullet comment.
pub open spec fn is_style_key(key: Seq<u8>) -> bool {
    key == seq![0x70u8]
}

/// The first style among the attributes of an element, as it is written.
pub open spec fn style_attribute(attributes: Seq<Option<(Seq<u8>, Seq<u8>)>>) -> Option<Seq<u8>>
    decreases attributes.len(),
{
    if attributes.len() == 0 {
        None
    } else {
        match attributes[0] {
            Some((key, value)) if is_style_key(key) => Some(value),
            _ => style_attribute(attributes.skip(1)),
        }
    }
}

/// How a text begins: what is longer than 60 bytes is cut off after 60 characters, and marked.
pub open spec fn preview(content: Seq<u8>) -> Seq<char> {
    let s = lossy_text(content);
    if encode_utf8(s).len() > 60 {
        head(s, 60) + "..."@
    } else {
        s
    }
}

/// Shows how a text begins.
fn preview_of(content: &[u8]) -> (p: String)
    ensures
        p@ == preview(content@),
{
    let s = read_lossy(content);
    if s.as_str().as_bytes().len() > 60 {
        let mut p = head_of(s.as_str(), 60);
        p.append("...");
        p
    } else {
        s
    }
}

/// The style of an element, with its references resolved; the empty one if it has none.
pub open spec fn styles_of(attributes: Seq<Option<(Seq<u8>, Seq<u8>)>>) -> Result<
    Seq<char>,
    Seq<char>,
> {
    match style_attribute(attributes) {
        Some(raw) => xml_attribute_value(raw),
        None => Ok(Seq::empty()),
    }
}

/// What comes of an element with the given style and content, after `count` bullet comments.
pub open spec fn element_of(
    styles: Result<Seq<char>, Seq<char>>,
    content: Result<Seq<u8>, Seq<char>>,
    count: nat,
) -> Result<Option<DanmakuView>, ParseErrorView> {
    match (styles, content) {
        (Err(detail), _) => Err(ParseErrorView::Attribute { detail }),
        (_, Err(detail)) => Err(ParseErrorView::Content { detail }),
        (Ok(styles), Ok(content)) => match danmaku_of(styles, content) {
            Ok(d) => Ok(d),
            Err(cause) => Err(
                ParseErrorView::Danmaku { index: count + 1, preview: preview(content), cause },
            ),
        },
    }
}

/// The reads of an element that holds a bullet comment, after its start tag.
pub open spec fn reads_after_element(
    reads: Seq<Option<Seq<u8>>>,
    name: Seq<u8>,
) -> Seq<Option<Seq<u8>>> {
    reads.push(None).push(Some(name))
}

/// What comes of the rest of a document, after the given reads of it and the bullet comments that
/// they found; `limit` is a number of events that it does not exceed.
pub open spec fn rest_of(
    source: Seq<char>,
    reads: Seq<Option<Seq<u8>>>,
    found: Seq<DanmakuView>,
    limit: nat,
) -> Result<Seq<DanmakuView>, ParseErrorView>
    decreases limit,
{
    if limit == 0 {
        Ok(found)
    } else {
        match xml_event(source, reads) {
            Err(detail) => Err(ParseErrorView::Xml { detail }),
            Ok(XmlEventView::Eof) => Ok(found),
            Ok(XmlEventView::Other) => rest_of(
                source,
                reads.push(None),
                found,
                (limit - 1) as nat,
            ),
            Ok(XmlEventView::Start { name, attributes }) => if is_danmaku_name(name) {
                match element_of(
                    styles_of(attributes),
                    xml_text(source, reads.push(None), name),
                    found.len(),
                ) {
                    Err(e) => Err(e),
                    Ok(d) => rest_of(
                        source,
                        reads_after_element(reads, name),
                        match d {
                            Some(d) => found.push(d),
                            None => found,
                        },
                        (limit - 1) as nat,
                    ),
                }
            } else {
                rest_of(source, reads.push(None), found, (limit - 1) as nat)
            },
        }
    }
}

/// What comes of well-formed XML: the bullet comments in it, in order, or the first error. Its
/// events are no more than its bytes and the end.
pub open spec fn document_of(source: Seq<char>) -> Result<Seq<DanmakuView>, ParseErrorView> {
    rest_of(source, Seq::empty(), Seq::empty(), encode_utf8(source).len() + 1)
}

/// What the outcome of an element says.
pub open spec fn element_view(r: Result<Option<Danmaku>, ParseError>) -> Result<
    Option<DanmakuView>,
    ParseErrorView,
> {
    match r {
        Ok(Some(d)) => Ok(Some(d@)),
        Ok(None) => Ok(None),
        Err(e) => Err(e@),
    }
}

/// What the outcome of reading bytes says.
pub open spec fn content_view(r: Result<Vec<u8>, String>) -> Result<Seq<u8>, Seq<char>> {
    match r {
        Ok(v) => Ok(v@),
        Err(m) => Err(m@),
    }
}

/// What the outcome of a document says.
pub open spec fn document_view(r: Result<Vec<Danmaku>, ParseError>) -> Result<
    Seq<DanmakuView>,
    ParseErrorView,
> {
    match r {
        Ok(v) => Ok(danmaku_views(v@)),
        Err(e) => Err(e@),
    }
}

/// Finds the style among the attributes of an element.
pub fn find_style(attributes: &Vec<Option<XmlAttribute>>) -> (raw: Option<Vec<u8>>)
    ensures
        match raw {
            Some(v) => style_attribute(attribute_views(attributes@)) == Some(v@),
            None => style_attribute(attribute_views(attributes@)) is None,
        },
{
    let ghost views = attribute_views(attributes@);
    let key: [u8; 1] = [0x70];
    let mut i: usize = 0;
    assert(views.skip(0) == views);
    assert(key@ == seq![0x70u8]);
    while i < attributes.len()
        invariant
            views == attribute_views(attributes@),
            key@ == seq![0x70u8],
            i <= attributes@.len(),
            style_attribute(views.skip(i as int)) == style_attribute(views),
        decreases attributes@.len() - i,
    {
        assert(views.skip(i as int)[0] == attribute_view(attributes@[i as int]));
        assert(views.skip(i as int).skip(1) == views.skip(i + 1));
        if let Some(a) = &attributes[i] {
            if bytes_eq(a.key.as_slice(), key.as_slice()) {
                let value = a.value.clone();
                assert(value@ == a.value@);
                return Some(value);
            }
        }
        i += 1;
    }
    None
}

/// Reads an element with the given style and content, after `count` bullet comments.
pub fn read_element(
    styles: Result<String, String>,
    content: Result<Vec<u8>, String>,
    count: usize,
) -> (d: Result<Option<Danmaku>, ParseError>)
    requires
        count < usize::MAX,
    ensures
        element_view(d) == element_of(text_view(styles), content_view(content), count as nat),
        d matches Ok(Some(danmaku)) ==> danmaku.time.nanos <= MAX_NANOS,
{
    let styles = match styles {
        Ok(styles) => styles,
        Err(detail) => {
            return Err(ParseError::Attribute { detail });
        },
    };
    let content = match content {
        Ok(content) => content,
        Err(detail) => {
            return Err(ParseError::Content { detail });
        },
    };
    let preview = preview_of(content.as_slice());
    let reading = Danmaku::new(Cow::Owned(styles), Cow::Owned(content));
    assert(reading_view(reading) == danmaku_of(styles@, content@));
    match reading {
        Ok(d) => Ok(d),
        Err(cause) => Err(ParseError::Danmaku { index: count + 1, preview, cause }),
    }
}

/// Reads the bullet comments of well-formed XML.
pub fn read_document(xml: &str) -> (danmakus: Result<Vec<Danmaku>, ParseError>)
    ensures
        document_view(danmakus) == document_of(xml@),
        danmakus is Ok ==> times_fit(danmaku_views(danmakus->Ok_0@)),
{
    let mut reader = open_xml(xml);
    let mut danmakus: Vec<Danmaku> = Vec::new();
    let element: [u8; 1] = [0x64];
    let len: usize = xml.as_bytes().len();
    let ghost mut limit: nat = (len + 1) as nat;
    assert(danmaku_views(danmakus@) == Seq::<DanmakuView>::empty());
    assert(element@ == seq![0x64u8]);
    loop
        invariant
            xml_source(reader) == xml@,
            len == encode_utf8(xml@).len(),
            element@ == seq![0x64u8],
            2 * danmakus@.len() <= xml_reads(reader).len() <= len,
            times_fit(danmaku_views(danmakus@)),
            limit + xml_reads(reader).len() >= len + 1,
            document_of(xml@) == rest_of(
                xml@,
                xml_reads(reader),
                danmaku_views(danmakus@),
                limit,
            ),
        decreases len - xml_reads(reader).len(),
    {
        let ghost reads = xml_reads(reader);
        let ghost found = danmaku_views(danmakus@);
        let event = match next_xml_event(&mut reader) {
            Ok(event) => event,
            Err(detail) => {
                return Err(ParseError::Xml { detail });
            },
        };
        match event {
            XmlEvent::Eof => {
                return Ok(danmakus);
            },
            XmlEvent::Other => {},
            XmlEvent::Start { name, attributes } => {
                if bytes_eq(name.as_slice(), element.as_slice()) {
                    let styles = match find_style(&attributes) {
                        Some(raw) => normalize_attribute(raw.as_slice()),
                        None => Ok(String::new()),
                    };
                    let styles = match styles {
                        Ok(styles) => styles,
                        Err(detail) => {
                            return Err(ParseError::Attribute { detail });
                        },
                    };
                    let content = read_xml_text(&mut reader, name.as_slice());
                    let read = read_element(Ok(styles), content, danmakus.len());
                    match read {
                        Ok(Some(d)) => {
                            let ghost before = danmakus@;
                            danmakus.push(d);
                            assert(danmaku_views(danmakus@) == danmaku_views(before).push(d@));
                        },
                        Ok(None) => {},
                        Err(e) => {
                            return Err(e);
                        },
                    }
                }
            },
        }
        proof {
            limit = (limit - 1) as nat;
        }
    }
}

/// Reads the bullet comments of a danmaku document, which is mended first.
pub fn parse_danmakus(xml: String) -> (danmakus: Result<Vec<Danmaku>, ParseError>)
    ensures
        regex_captures(TAG_PATTERN@, xml@) is Some,
        document_view(danmakus) == document_of(
            mended(xml@, regex_captures(TAG_PATTERN@, xml@)->0),
        ),
        danmakus is Ok ==> times_fit(danmaku_views(danmakus->Ok_0@)),
{
    let xml = fix_bili_xml(xml.as_str());
    read_document(xml.as_str())
}

/// Some filter matches in the text.
pub open spec fn is_filtered(text: Seq<char>, filters: Seq<Seq<char>>) -> bool {
    exists|j: int|
        0 <= j < filters.len() && regex_matches(#[trigger] filters[j], text) == Ok::<
            bool,
            Seq<char>,
        >(true)
}

/// The bullet comments in whose texts no filter matches, in order.
pub open spec fn unfiltered(danmakus: Seq<DanmakuView>, filters: Seq<Seq<char>>) -> Seq<
    DanmakuView,
> {
    danmakus.filter(|d: DanmakuView| !is_filtered(d.text, filters))
}

/// Tells which of the texts a filter matches in.
fn mark_filtered(all: &Vec<String>, filters: &Vec<String>) -> (marks: Result<
    Vec<bool>,
    FilterError,
>)
    ensures
        match marks {
            Ok(v) => bad_filter(texts(filters@), 0) is None && v@.len() == all@.len() && forall|
                i: int,
            |
                0 <= i < v@.len() ==> #[trigger] v@[i] == is_filtered(all@[i]@, texts(filters@)),
            Err(e) => bad_filter(texts(filters@), 0) == Some(e.pattern@) && regex_matches(
                e.pattern@,
                Seq::empty(),
            ) == Err::<bool, Seq<char>>(e.detail@),
        },
{
    let ghost views = texts(filters@);
    let mut marks: Vec<bool> = vec![false; all.len()];
    let mut j: usize = 0;
    assert forall|i: int| 0 <= i < all@.len() implies !is_filtered(
        #[trigger] all@[i]@,
        views.take(0),
    ) by {}
    while j < filters.len()
        invariant
            views == texts(filters@),
            j <= filters@.len(),
            marks@.len() == all@.len(),
            bad_filter(views, 0) == bad_filter(views, j as int),
            forall|i: int|
                0 <= i < marks@.len() ==> #[trigger] marks@[i] == is_filtered(
                    all@[i]@,
                    views.take(j as int),
                ),
        decreases filters@.len() - j,
    {
        let pattern = filters[j].as_str();
        assert(views[j as int] == pattern@);
        let found = match match_all(pattern, all) {
            Ok(found) => found,
            Err(detail) => {
                assert(regex_matches(pattern@, Seq::empty()) is Err);
                return Err(FilterError { pattern: pattern.to_owned(), detail });
            },
        };
        assert(regex_matches(pattern@, Seq::empty()) is Ok);
        let ghost before = marks@;
        let ghost shorter = views.take(j as int);
        let ghost longer = views.take(j + 1);
        let mut i: usize = 0;
        while i < all.len()
            invariant
                j < filters@.len(),
                views == texts(filters@),
                views[j as int] == pattern@,
                shorter == views.take(j as int),
                longer == views.take(j + 1),
                i <= all@.len(),
                marks@.len() == all@.len(),
                before.len() == all@.len(),
                found@.len() == all@.len(),
                forall|k: int|
                    0 <= k < found@.len() ==> regex_matches(pattern@, all@[k]@) == Ok::<
                        bool,
                        Seq<char>,
                    >(#[trigger] found@[k]),
                forall|k: int|
                    0 <= k < before.len() ==> #[trigger] before[k] == is_filtered(
                        all@[k]@,
                        shorter,
                    ),
                forall|k: int| i <= k < marks@.len() ==> marks@[k] == before[k],
                forall|k: int|
                    0 <= k < i ==> #[trigger] marks@[k] == is_filtered(all@[k]@, longer),
            decreases all@.len() - i,
        {
            let ghost text = all@[i as int]@;
            assert(is_filtered(text, longer) == (before[i as int] || found@[i as int])) by {
                if before[i as int] {
                    let k = choose|k: int|
                        0 <= k < shorter.len() && regex_matches(#[trigger] shorter[k], text)
                            == Ok::<bool, Seq<char>>(true);
                    assert(longer[k] == shorter[k]);
                }
                if found@[i as int] {
                    assert(longer[j as int] == pattern@);
                }
                if is_filtered(text, longer) {
                    let k = choose|k: int|
                        0 <= k < longer.len() && regex_matches(#[trigger] longer[k], text) == Ok::<
                            bool,
                            Seq<char>,
                        >(true);
                    if k < j {
                        assert(shorter[k] == longer[k]);
                    }
                }
            }
            if found[i] {
                marks.set(i, true);
            }
            i += 1;
        }
        j += 1;
    }
    assert(views.take(j as int) == views);
    Ok(marks)
}

/// Drops the bullet comments in whose texts a filter matches.
pub fn filter_danmakus(danmakus: Vec<Danmaku>, filters: &Vec<String>) -> (kept: Result<
    Vec<Danmaku>,
    FilterError,
>)
    ensures
        match kept {
            Ok(v) => bad_filter(texts(filters@), 0) is None && danmaku_views(v@) == unfiltered(
                danmaku_views(danmakus@),
                texts(filters@),
            ),
            Err(e) => bad_filter(texts(filters@), 0) == Some(e.pattern@) && regex_matches(
                e.pattern@,
                Seq::empty(),
            ) == Err::<bool, Seq<char>>(e.detail@),
        },
        kept is Ok && times_fit(danmaku_views(danmakus@)) ==> times_fit(
            danmaku_views(kept->Ok_0@),
        ),
{
    let ghost views = danmaku_views(danmakus@);
    let ghost patterns = texts(filters@);
    let ghost keep = |d: DanmakuView| !is_filtered(d.text, patterns);
    let mut all: Vec<String> = Vec::new();
    let mut i: usize = 0;
    while i < danmakus.len()
        invariant
            i <= danmakus@.len(),
            all@.len() == i,
            forall|k: int| 0 <= k < i ==> #[trigger] all@[k]@ == danmakus@[k].text@,
        decreases danmakus@.len() - i,
    {
        all.push(danmakus[i].text.clone());
        i += 1;
    }
    let marks = match mark_filtered(&all, filters) {
        Ok(marks) => marks,
        Err(e) => {
            return Err(e);
        },
    };
    let mut kept: Vec<Danmaku> = Vec::new();
    let mut n: usize = 0;
    let len: usize = danmakus.len();
    proof {
        reveal(Seq::filter);
    }
    assert(danmaku_views(kept@) == views.take(0).filter(keep));
    for d in it: danmakus
        invariant
            it.seq() == danmakus@,
            n == it.index(),
            len == danmakus@.len(),
            marks@.len() == len,
            all@.len() == len,
            views == danmaku_views(danmakus@),
            patterns == texts(filters@),
            keep == (|d: DanmakuView| !is_filtered(d.text, patterns)),
            forall|k: int| 0 <= k < len ==> #[trigger] all@[k]@ == danmakus@[k].text@,
            forall|k: int|
                0 <= k < len ==> #[trigger] marks@[k] == is_filtered(all@[k]@, patterns),
            danmaku_views(kept@) == views.take(it.index()).filter(keep),
            times_fit(views) ==> times_fit(danmaku_views(kept@)),
    {
        proof {
            reveal(Seq::filter);
            assert(views.take(n + 1).drop_last() == views.take(n as int));
            assert(views.take(n + 1).last() == d@);
            assert(all@[n as int]@ == d.text@);
        }
        if !marks[n] {
            let ghost before = kept@;
            kept.push(d);
            assert(danmaku_views(kept@) == danmaku_views(before).push(d@));
        }
        n += 1;
    }
    assert(views.take(len as int) == views);
    Ok(kept)
}

/// The style of an element is the value of the first of its attributes whose key is `p`; attributes
/// that cannot be read are passed over. Without such an attribute there is none.
pub proof fn law_style_is_the_first(attributes: Seq<Option<(Seq<u8>, Seq<u8>)>>)
    ensures
        match style_attribute(attributes) {
            Some(value) => exists|i: int|
                {
                    &&& 0 <= i < attributes.len()
                    &&& #[trigger] attributes[i] == Some((seq![0x70u8], value))
                    &&& forall|j: int|
                        0 <= j < i ==> (#[trigger] attributes[j] matches Some((key, _)) ==> key
                            != seq![0x70u8])
                },
            None => forall|j: int|
                0 <= j < attributes.len() ==> (#[trigger] attributes[j] matches Some((key, _))
                    ==> key != seq![0x70u8]),
        },
    decreases attributes.len(),
{
    if attributes.len() > 0 {
        let rest = attributes.skip(1);
        law_style_is_the_first(rest);
        let first = attributes[0];
        if first matches Some((key, _)) && key == seq![0x70u8] {
            assert(attributes[0] == Some((seq![0x70u8], style_attribute(attributes)->0)));
        } else {
            assert(style_attribute(attributes) == style_attribute(rest));
            match style_attribute(rest) {
                Some(value) => {
                    let i = choose|i: int|
                        {
                            &&& 0 <= i < rest.len()
                            &&& #[trigger] rest[i] == Some((seq![0x70u8], value))
                            &&& forall|j: int|
                                0 <= j < i ==> (#[trigger] rest[j] matches Some((key, _)) ==> key
                                    != seq![0x70u8])
                        };
                    assert(attributes[i + 1] == rest[i]);
                    assert forall|j: int| 0 <= j < i + 1 implies (
                    #[trigger] attributes[j] matches Some((key, _)) ==> key != seq![0x70u8]) by {
                        if j > 0 {
                            assert(rest[j - 1] == attributes[j]);
                        }
                    }
                },
                None => {
                    assert forall|j: int| 0 <= j < attributes.len() implies (
                    #[trigger] attributes[j] matches Some((key, _)) ==> key != seq![0x70u8]) by {
                        if j > 0 {
                            assert(rest[j - 1] == attributes[j]);
                        }
                    }
                },
            }
        }
    }
}

/// How a text begins is shown in full up to 60 bytes; of a longer one, its first 60 characters, or
/// all if it has fewer, are shown, and three dots after them.
pub proof fn law_preview_is_the_beginning(content: Seq<u8>)
    ensures
        ({
            let s = lossy_text(content);
            let p = preview(content);
            let n = if s.len() < 60 {
                s.len()
            } else {
                60
            };
            &&& encode_utf8(s).len() <= 60 ==> p == s
            &&& encode_utf8(s).len() > 60 ==> {
                &&& p.len() == n + 3
                &&& forall|i: int| 0 <= i < n ==> p[i] == s[i]
                &&& forall|i: int| n <= i < n + 3 ==> p[i] == '.'
            }
        }),
{
    reveal_strlit("...");
}

/// The bullet comments of a document come in order, and each once: those that were found stay at the
/// front, and what is found later does not depend on them.
pub proof fn law_found_stays_in_front(
    source: Seq<char>,
    reads: Seq<Option<Seq<u8>>>,
    before: Seq<DanmakuView>,
    found: Seq<DanmakuView>,
    limit: nat,
)
    ensures
        rest_of(source, reads, found, limit) matches Ok(all) ==> found.is_prefix_of(all) && rest_of(
            source,
            reads,
            before + found,
            limit,
        ) == Ok::<Seq<DanmakuView>, ParseErrorView>(before + all),
        rest_of(source, reads, found, limit) is Err ==> rest_of(source, reads, before + found, limit)
            is Err,
    decreases limit,
{
    if limit > 0 {
        let less = (limit - 1) as nat;
        match xml_event(source, reads) {
            Err(_) => {},
            Ok(XmlEventView::Eof) => {},
            Ok(XmlEventView::Other) => {
                law_found_stays_in_front(source, reads.push(None), before, found, less);
            },
            Ok(XmlEventView::Start { name, attributes }) => {
                if is_danmaku_name(name) {
                    let styles = styles_of(attributes);
                    let content = xml_text(source, reads.push(None), name);
                    let later = reads_after_element(reads, name);
                    assert(element_of(styles, content, found.len()) is Ok <==> element_of(
                        styles,
                        content,
                        (before + found).len(),
                    ) is Ok);
                    match element_of(styles, content, found.len()) {
                        Ok(Some(d)) => {
                            law_found_stays_in_front(source, later, before, found.push(d), less);
                            assert(before + found.push(d) == (before + found).push(d));
                            if let Ok(all) = rest_of(source, later, found.push(d), less) {
                                assert(all.subrange(0, found.len() as int) == found) by {
                                    assert(found.push(d) == all.subrange(
                                        0,
                                        found.push(d).len() as int,
                                    ));
                                    assert(found.push(d).subrange(0, found.len() as int) == found);
                                }
                            }
                        },
                        Ok(None) => {
                            law_found_stays_in_front(source, later, before, found, less);
                        },
                        Err(_) => {},
                    }
                } else {
                    law_found_stays_in_front(source, reads.push(None), before, found, less);
                }
            },
        }
    }
}

/// A bullet comment is part of the document that it stands in: once it is read, it is the next after
/// those found before.
pub proof fn law_comment_is_found(
    source: Seq<char>,
    reads: Seq<Option<Seq<u8>>>,
    found: Seq<DanmakuView>,
    limit: nat,
    name: Seq<u8>,
    attributes: Seq<Option<(Seq<u8>, Seq<u8>)>>,
    styles: Seq<char>,
    content: Seq<u8>,
    d: DanmakuView,
)
    requires
        limit > 0,
        xml_event(source, reads) == Ok::<XmlEventView, Seq<char>>(
            XmlEventView::Start { name, attributes },
        ),
        name == seq![0x64u8],
        styles_of(attributes) == Ok::<Seq<char>, Seq<char>>(styles),
        xml_text(source, reads.push(None), name) == Ok::<Seq<u8>, Seq<char>>(content),
        danmaku_of(styles, content) == Ok::<Option<DanmakuView>, ErrorView>(Some(d)),
    ensures
        rest_of(source, reads, found, limit) matches Ok(all) ==> found.len() < all.len()
            && all[found.len() as int] == d,
{
    law_found_stays_in_front(
        source,
        reads_after_element(reads, name),
        Seq::empty(),
        found.push(d),
        (limit - 1) as nat,
    );
    if let Ok(all) = rest_of(source, reads, found, limit) {
        assert(found.push(d) == all.subrange(0, found.push(d).len() as int));
        assert(all[found.len() as int] == found.push(d)[found.len() as int]);
    }
}

/// A bullet comment that cannot be read is told by its place among those found, counted from one.
pub proof fn law_bad_comment_is_numbered(
    styles: Seq<char>,
    content: Seq<u8>,
    found: Seq<DanmakuView>,
)
    requires
        danmaku_of(styles, content) is Err,
    ensures
        match element_of(Ok(styles), Ok(content), found.len()) {
            Err(ParseErrorView::Danmaku { index, preview: shown, cause }) => {
                &&& index - 1 == found.len()
                &&& shown == preview(content)
                &&& danmaku_of(styles, content) == Err::<Option<DanmakuView>, ErrorView>(cause)
            },
            _ => false,
        },
{
}

/// A bullet comment is kept exactly if no filter matches anywhere in its text; what is kept was
/// there, and nothing is added.
pub proof fn law_filters_drop_what_matches(
    danmakus: Seq<DanmakuView>,
    filters: Seq<Seq<char>>,
    d: DanmakuView,
)
    ensures
        unfiltered(danmakus, filters).contains(d) <==> danmakus.contains(d) && forall|j: int|
            0 <= j < filters.len() ==> regex_matches(#[trigger] filters[j], d.text) != Ok::<
                bool,
                Seq<char>,
            >(true),
        unfiltered(danmakus, filters).len() <= danmakus.len(),
{
    let keep = |d: DanmakuView| !is_filtered(d.text, filters);
    let kept = danmakus.filter(keep);
    danmakus.lemma_filter_len(keep);
    if kept.contains(d) {
        danmakus.lemma_filter_contains_rev(keep, d);
        let i = choose|i: int| 0 <= i < kept.len() && kept[i] == d;
        danmakus.lemma_filter_pred(keep, i);
        assert(keep(d));
    }
    if danmakus.contains(d) && !is_filtered(d.text, filters) {
        let i = choose|i: int| 0 <= i < danmakus.len() && danmakus[i] == d;
        assert(keep(danmakus[i]));
        danmakus.lemma_filter_contains(keep, i);
    }
}

/// Without filters, all bullet comments are kept, in order; and further ones are filtered by
/// themselves.
pub proof fn law_filtering_keeps_order(
    first: Seq<DanmakuView>,
    second: Seq<DanmakuView>,
    filters: Seq<Seq<char>>,
)
    ensures
        unfiltered(first + second, filters) == unfiltered(first, filters) + unfiltered(
            second,
            filters,
        ),
        unfiltered(first, Seq::empty()) == first,
    decreases first.len(),
{
    let keep = |d: DanmakuView| !is_filtered(d.text, filters);
    Seq::filter_distributes_over_add(first, second, keep);
    reveal(Seq::filter);
    if first.len() > 0 {
        law_filtering_keeps_order(first.drop_last(), second, filters);
        assert(first.drop_last().push(first.last()) == first);
    }
}

/// An attribute that cannot be decoded is told before anything about the content is; a comment whose
/// attribute and content can be read is what they make up.
pub proof fn law_attribute_is_read_first(
    styles: Result<Seq<char>, Seq<char>>,
    content: Result<Seq<u8>, Seq<char>>,
    count: nat,
)
    ensures
        match element_of(styles, content, count) {
            Err(ParseErrorView::Attribute { detail }) => styles == Err::<Seq<char>, Seq<char>>(
                detail,
            ),
            Err(ParseErrorView::Content { detail }) => styles is Ok && content == Err::<
                Seq<u8>,
                Seq<char>,
            >(detail),
            Err(ParseErrorView::Xml { .. }) => false,
            Err(ParseErrorView::Danmaku { .. }) => styles is Ok && content is Ok && danmaku_of(
                styles->Ok_0,
                content->Ok_0,
            ) is Err,
            Ok(d) => styles is Ok && content is Ok && danmaku_of(styles->Ok_0, content->Ok_0) == Ok::<
                Option<DanmakuView>,
                ErrorView,
            >(d),
        },
{
}

/// What is not the start of a bullet comment is passed over: it neither adds one nor takes one away.
pub proof fn law_other_elements_are_passed_over(
    source: Seq<char>,
    reads: Seq<Option<Seq<u8>>>,
    found: Seq<DanmakuView>,
    limit: nat,
)
    requires
        match xml_event(source, reads) {
            Ok(XmlEventView::Start { name, attributes: _ }) => name != seq![0x64u8],
            Ok(XmlEventView::Other) => true,
            _ => false,
        },
    ensures
        rest_of(source, reads, found, limit + 1) == rest_of(source, reads.push(None), found, limit),
{
}

/// At the end of a document, its bullet comments are those that were found; and what is not
/// well-formed is told.
pub proof fn law_document_ends_with_what_was_found(
    source: Seq<char>,
    reads: Seq<Option<Seq<u8>>>,
    found: Seq<DanmakuView>,
    limit: nat,
)
    ensures
        xml_event(source, reads) == Ok::<XmlEventView, Seq<char>>(XmlEventView::Eof) ==> rest_of(
            source,
            reads,
            found,
            limit,
        ) == Ok::<Seq<DanmakuView>, ParseErrorView>(found),
        limit > 0 ==> (xml_event(source, reads) matches Err(detail) ==> rest_of(
            source,
            reads,
            found,
            limit,
        ) == Err::<Seq<DanmakuView>, ParseErrorView>(ParseErrorView::Xml { detail })),
{
}

} // verus!
