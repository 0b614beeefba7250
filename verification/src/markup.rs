//! Mending danmaku XML: text between elements that looks like markup is escaped.

use crate::pattern::{
    capture_view, capture_views, find_captures, regex_captures, span_in, Capture, TAG_PATTERN,
};
use crate::text::{chars_of, ends_with, stands_at, starts_with, str_eq};
use vstd::prelude::*;
use vstd::string::*;
use vstd::utf8::*;

verus! {

/// How a character of text is written in XML.
pub open spec fn escaped_char(c: char) -> Seq<char> {
    if c == '&' {
        "&amp;"@
    } else if c == '<' {
        "&lt;"@
    } else {
        seq![c]
    }
}

/// How a text is written in XML.
pub open spec fn escaped(s: Seq<char>) -> Seq<char>
    decreases s.len(),
{
    if s.len() == 0 {
        s
    } else {
        escaped(s.drop_last()) + escaped_char(s.last())
    }
}

/// Writes a text in XML: every `&` and every `<` as a reference.
pub fn escape_text(s: &str) -> (r: String)
    ensures
        r@ == escaped(s@),
{
    let chars = chars_of(s);
    let mut r = String::new();
    let mut i: usize = 0;
    while i < chars.len()
        invariant
            chars@ == s@,
            i <= chars@.len(),
            r@ == escaped(s@.take(i as int)),
        decreases chars@.len() - i,
    {
        let c = chars[i];
        assert(s@.take(i + 1).drop_last() == s@.take(i as int));
        if c == '&' {
            r.append("&amp;");
        } else if c == '<' {
            r.append("&lt;");
        } else {
            let ghost before = r@;
            r.push(c);
            assert(before.push(c) == before + seq![c]);
        }
        i += 1;
    }
    assert(s@.take(i as int) == s@);
    r
}

/// The characters of `text` from byte `from` up to byte `to`.
pub open spec fn slice(text: Seq<char>, from: int, to: int) -> Seq<char> {
    decode_utf8(encode_utf8(text).subrange(from, to))
}

/// A cut between characters of a text is one between characters of what follows an earlier cut.
proof fn lemma_cut_after(bytes: Seq<u8>, from: int, to: int)
    requires
        valid_utf8(bytes),
        0 <= from <= to <= bytes.len(),
        is_char_boundary(bytes, from),
        is_char_boundary(bytes, to),
    ensures
        is_char_boundary(bytes.subrange(from, bytes.len() as int), to - from),
{
    let tail = bytes.subrange(from, bytes.len() as int);
    valid_utf8_split(bytes, from);
    if to < bytes.len() {
        is_char_boundary_iff_not_is_continuation_byte(bytes, to);
        is_char_boundary_iff_not_is_continuation_byte(tail, to - from);
        assert(tail[to - from] == bytes[to]);
    } else {
        is_char_boundary_start_end_of_seq(tail);
    }
}

/// The part of a text between two cuts.
fn slice_of<'a>(text: &'a str, from: usize, to: usize) -> (part: &'a str)
    requires
        from <= to,
        span_in(text@, from as int, to as int),
    ensures
        part@ == slice(text@, from as int, to as int),
{
    let ghost bytes = encode_utf8(text@);
    proof {
        encode_utf8_valid_utf8(text@);
        lemma_cut_after(bytes, from as int, to as int);
    }
    let tail = text.split_at(from).1;
    let part = tail.split_at(to - from).0;
    proof {
        encode_utf8_decode_utf8(part@);
        assert(encode_utf8(part@) == bytes.subrange(from as int, to as int));
    }
    part
}

/// The element names of danmaku XML.
pub open spec fn is_known_name(name: Seq<char>) -> bool {
    ||| name == "i"@
    ||| name == "chatserver"@
    ||| name == "chatid"@
    ||| name == "mission"@
    ||| name == "maxlimit"@
    ||| name == "state"@
    ||| name == "real_name"@
    ||| name == "source"@
    ||| name == "ds"@
    ||| name == "d"@
}

/// Whether a name is an element name of danmaku XML.
pub fn known_name(name: &str) -> (known: bool)
    ensures
        known == is_known_name(name@),
{
    str_eq(name, "i") || str_eq(name, "chatserver") || str_eq(name, "chatid") || str_eq(
        name,
        "mission",
    ) || str_eq(name, "maxlimit") || str_eq(name, "state") || str_eq(name, "real_name") || str_eq(
        name,
        "source",
    ) || str_eq(name, "ds") || str_eq(name, "d")
}

/// How far the mending of a text has come.
pub struct Mended {
    /// What is written.
    pub out: Seq<char>,
    /// The first byte that is not written.
    pub pos: int,
    /// How many elements are open there.
    pub depth: int,
}

/// What is written for the text from `from` up to `to`, where `depth` elements are open: between
/// elements it is escaped.
pub open spec fn mended_text(text: Seq<char>, from: int, to: int, depth: int) -> Seq<char> {
    if depth == 0 {
        escaped(slice(text, from, to))
    } else {
        slice(text, from, to)
    }
}

/// How many elements are open after `tag`, where `depth` were before.
pub open spec fn depth_after(tag: Seq<char>, depth: int) -> int {
    if stands_at(tag, "</"@, 0) {
        if depth > 0 {
            depth - 1
        } else {
            0
        }
    } else if stands_at(tag, "/>"@, tag.len() - 2) {
        depth
    } else {
        depth + 1
    }
}

/// A tag that is kept: one with a known name, or a processing instruction, past what is written.
pub open spec fn is_kept(m: Mended, tag: (int, int, Option<Seq<char>>)) -> bool {
    m.pos <= tag.0 && (tag.2 is Some ==> is_known_name(tag.2->0))
}

/// Writes the text up to a tag, and the tag, if it is kept.
pub open spec fn mend_tag(
    text: Seq<char>,
    m: Mended,
    tag: (int, int, Option<Seq<char>>),
) -> Mended {
    if is_kept(m, tag) {
        let tag_text = slice(text, tag.0, tag.1);
        Mended {
            out: m.out + mended_text(text, m.pos, tag.0, m.depth) + tag_text,
            pos: tag.1,
            depth: depth_after(tag_text, m.depth),
        }
    } else {
        m
    }
}

/// Mends a text up to the last of its tags.
pub open spec fn mend_tags(text: Seq<char>, tags: Seq<(int, int, Option<Seq<char>>)>) -> Mended
    decreases tags.len(),
{
    if tags.len() == 0 {
        Mended { out: Seq::empty(), pos: 0, depth: 0 }
    } else {
        mend_tag(text, mend_tags(text, tags.drop_last()), tags.last())
    }
}

/// The mended text.
pub open spec fn mended(text: Seq<char>, tags: Seq<(int, int, Option<Seq<char>>)>) -> Seq<char> {
    let m = mend_tags(text, tags);
    if m.pos < encode_utf8(text).len() {
        m.out + mended_text(text, m.pos, encode_utf8(text).len() as int, m.depth)
    } else {
        m.out
    }
}

/// Mends a text whose tags are given.
pub fn mend(text: &str, tags: &Vec<Capture>) -> (r: String)
    requires
        forall|i: int|
            0 <= i < tags@.len() ==> span_in(
                text@,
                (#[trigger] tags@[i]).start as int,
                tags@[i].end as int,
            ),
    ensures
        r@ == mended(text@, capture_views(tags@)),
{
    let ghost views = capture_views(tags@);
    let mut out = String::new();
    let mut pos: usize = 0;
    let mut depth: usize = 0;
    let mut i: usize = 0;
    proof {
        encode_utf8_valid_utf8(text@);
        is_char_boundary_start_end_of_seq(encode_utf8(text@));
        reveal_strlit("/>");
    }
    assert(views.take(0) == Seq::<(int, int, Option<Seq<char>>)>::empty());
    while i < tags.len()
        invariant
            views == capture_views(tags@),
            forall|k: int|
                0 <= k < tags@.len() ==> span_in(
                    text@,
                    (#[trigger] tags@[k]).start as int,
                    tags@[k].end as int,
                ),
            i <= tags@.len(),
            depth <= i,
            mend_tags(text@, views.take(i as int)) == (Mended {
                out: out@,
                pos: pos as int,
                depth: depth as int,
            }),
            pos <= encode_utf8(text@).len(),
            is_char_boundary(encode_utf8(text@), pos as int),
            "/>"@.len() == 2,
        decreases tags@.len() - i,
    {
        let tag = &tags[i];
        let ghost before = mend_tags(text@, views.take(i as int));
        assert(views.take(i + 1).drop_last() == views.take(i as int));
        assert(views.take(i + 1).last() == capture_view(*tag));
        let known = match &tag.group {
            Some(name) => known_name(name.as_str()),
            None => true,
        };
        if known && pos <= tag.start {
            let gap = slice_of(text, pos, tag.start);
            let tag_text = slice_of(text, tag.start, tag.end);
            if depth == 0 {
                let gap = escape_text(gap);
                out.append(gap.as_str());
            } else {
                out.append(gap);
            }
            out.append(tag_text);
            pos = tag.end;
            if starts_with(tag_text, "</") {
                if depth > 0 {
                    depth -= 1;
                }
            } else if !ends_with(tag_text, "/>") {
                depth += 1;
            }
        }
        i += 1;
    }
    assert(views.take(i as int) == views);
    let len: usize = text.as_bytes().len();
    if pos < len {
        proof {
            is_char_boundary_start_end_of_seq(encode_utf8(text@));
        }
        let rest = slice_of(text, pos, len);
        if depth == 0 {
            let rest = escape_text(rest);
            out.append(rest.as_str());
        } else {
            out.append(rest);
        }
    }
    out
}

/// Mends danmaku XML: what looks like markup but is none of its elements is text, and is escaped
/// where it stands outside of any element.
pub fn fix_bili_xml(xml: &str) -> (r: String)
    ensures
        regex_captures(TAG_PATTERN@, xml@) is Some,
        r@ == mended(xml@, regex_captures(TAG_PATTERN@, xml@)->0),
{
    match find_captures(TAG_PATTERN, xml) {
        Some(tags) => mend(xml, &tags),
        None => String::new(),
    }
}

/// Escaped text holds no start of a tag.
pub proof fn law_escaped_opens_no_tag(s: Seq<char>)
    ensures
        !escaped(s).contains('<'),
    decreases s.len(),
{
    if s.len() > 0 {
        law_escaped_opens_no_tag(s.drop_last());
        reveal_strlit("&amp;");
        reveal_strlit("&lt;");
        let a = escaped(s.drop_last());
        let b = escaped_char(s.last());
        assert forall|i: int| 0 <= i < (a + b).len() implies (a + b)[i] != '<' by {
            if i < a.len() {
                assert(a[i] != '<');
            } else {
                assert((a + b)[i] == b[i - a.len()]);
            }
        }
    }
}

/// The text holds nothing that has to be escaped.
pub open spec fn is_plain(s: Seq<char>) -> bool {
    !s.contains('&') && !s.contains('<')
}

proof fn lemma_plain_is_escaped(s: Seq<char>)
    requires
        is_plain(s),
    ensures
        escaped(s) == s,
    decreases s.len(),
{
    if s.len() > 0 {
        let t = s.drop_last();
        assert(s.contains(s.last()));
        assert(is_plain(t)) by {
            assert forall|i: int| 0 <= i < t.len() implies t[i] != '&' && t[i] != '<' by {
                assert(s.contains(s[i]));
            }
        }
        lemma_plain_is_escaped(t);
        assert(t + seq![s.last()] == s);
    }
}

/// Two parts of a text that meet make up the part from the first to the last.
proof fn lemma_slices_meet(text: Seq<char>, a: int, b: int)
    requires
        0 <= a <= b <= encode_utf8(text).len(),
        is_char_boundary(encode_utf8(text), a),
        is_char_boundary(encode_utf8(text), b),
    ensures
        slice(text, 0, a) + slice(text, a, b) == slice(text, 0, b),
{
    let bytes = encode_utf8(text);
    encode_utf8_valid_utf8(text);
    valid_utf8_split(bytes, b);
    let head = bytes.subrange(0, b);
    if a < b {
        is_char_boundary_iff_not_is_continuation_byte(bytes, a);
        is_char_boundary_iff_not_is_continuation_byte(head, a);
    } else {
        is_char_boundary_start_end_of_seq(head);
    }
    decode_utf8_split(head, a);
    assert(head.subrange(0, a) == bytes.subrange(0, a));
    assert(head.subrange(a, b) == bytes.subrange(a, b));
}

/// Every piece of text that stands outside of any element, up to the last tag, is plain.
pub open spec fn plain_between(text: Seq<char>, tags: Seq<(int, int, Option<Seq<char>>)>) -> bool {
    forall|i: int|
        0 <= i < tags.len() ==> {
            let m = #[trigger] mend_tags(text, tags.take(i));
            is_kept(m, tags[i]) && m.depth == 0 ==> is_plain(slice(text, m.pos, tags[i].0))
        }
}

/// Every tag spans whole characters of the text.
pub open spec fn tags_in(text: Seq<char>, tags: Seq<(int, int, Option<Seq<char>>)>) -> bool {
    forall|i: int|
        0 <= i < tags.len() ==> span_in(text, (#[trigger] tags[i]).0, tags[i].1)
}

/// What is written up to a tag is the text up to there, as long as it is plain outside of elements.
proof fn lemma_written(text: Seq<char>, tags: Seq<(int, int, Option<Seq<char>>)>, n: int)
    requires
        tags_in(text, tags),
        plain_between(text, tags),
        0 <= n <= tags.len(),
    ensures
        ({
            let m = mend_tags(text, tags.take(n));
            &&& 0 <= m.pos <= encode_utf8(text).len()
            &&& is_char_boundary(encode_utf8(text), m.pos)
            &&& m.out == slice(text, 0, m.pos)
        }),
    decreases n,
{
    encode_utf8_valid_utf8(text);
    is_char_boundary_start_end_of_seq(encode_utf8(text));
    if n == 0 {
        assert(encode_utf8(text).subrange(0, 0) == Seq::<u8>::empty());
        assert(decode_utf8(Seq::<u8>::empty()) == Seq::<char>::empty());
    } else {
        lemma_written(text, tags, n - 1);
        assert(tags.take(n).drop_last() == tags.take(n - 1));
        let m = mend_tags(text, tags.take(n - 1));
        let tag = tags[n - 1];
        assert(span_in(text, tag.0, tag.1));
        if is_kept(m, tag) {
            if m.depth == 0 {
                lemma_plain_is_escaped(slice(text, m.pos, tag.0));
            }
            lemma_slices_meet(text, m.pos, tag.0);
            lemma_slices_meet(text, tag.0, tag.1);
        }
    }
}

/// XML that is well-formed outside of its elements, where it holds neither `&` nor `<` but for its
/// tags, is left as it is.
pub proof fn law_mending_keeps_plain_xml(
    text: Seq<char>,
    tags: Seq<(int, int, Option<Seq<char>>)>,
)
    requires
        tags_in(text, tags),
        plain_between(text, tags),
        ({
            let m = mend_tags(text, tags);
            m.depth == 0 ==> is_plain(slice(text, m.pos, encode_utf8(text).len() as int))
        }),
    ensures
        mended(text, tags) == text,
{
    let bytes = encode_utf8(text);
    let len = bytes.len() as int;
    let m = mend_tags(text, tags);
    encode_utf8_valid_utf8(text);
    encode_utf8_decode_utf8(text);
    is_char_boundary_start_end_of_seq(bytes);
    assert(tags.take(tags.len() as int) == tags);
    lemma_written(text, tags, tags.len() as int);
    assert(bytes.subrange(0, len) == bytes);
    if m.pos < len {
        if m.depth == 0 {
            lemma_plain_is_escaped(slice(text, m.pos, len));
        }
        lemma_slices_meet(text, m.pos, len);
    }
}

/// What a text stands for that is written in XML: every reference to `&` or to `<` is read as that
/// character.
pub open spec fn unescaped(s: Seq<char>) -> Seq<char>
    decreases s.len(),
{
    if s.len() == 0 {
        s
    } else if s.len() >= 5 && s.take(5) == seq!['&', 'a', 'm', 'p', ';'] {
        seq!['&'] + unescaped(s.skip(5))
    } else if s.len() >= 4 && s.take(4) == seq!['&', 'l', 't', ';'] {
        seq!['<'] + unescaped(s.skip(4))
    } else {
        seq![s[0]] + unescaped(s.skip(1))
    }
}

/// A text is written from its first character on as from its last one back.
proof fn lemma_escaped_from_first(s: Seq<char>)
    requires
        s.len() > 0,
    ensures
        escaped(s) == escaped_char(s[0]) + escaped(s.skip(1)),
    decreases s.len(),
{
    let t = s.drop_last();
    if t.len() == 0 {
        assert(s.skip(1) == Seq::<char>::empty());
        assert(t == Seq::<char>::empty());
        assert(escaped(t) == Seq::<char>::empty());
        assert(escaped(s.skip(1)) == Seq::<char>::empty());
        assert(s.last() == s[0]);
    } else {
        lemma_escaped_from_first(t);
        assert(t.skip(1) == s.skip(1).drop_last());
        assert(escaped(s) == escaped_char(s[0]) + (escaped(t.skip(1)) + escaped_char(s.last())));
    }
}

/// A text that is written in XML reads back as itself.
pub proof fn law_escaped_reads_back(s: Seq<char>)
    ensures
        unescaped(escaped(s)) == s,
    decreases s.len(),
{
    if s.len() > 0 {
        let rest = escaped(s.skip(1));
        let w = escaped(s);
        lemma_escaped_from_first(s);
        law_escaped_reads_back(s.skip(1));
        reveal_strlit("&amp;");
        reveal_strlit("&lt;");
        if s[0] == '&' {
            assert(w.take(5) == seq!['&', 'a', 'm', 'p', ';']);
            assert(w.skip(5) == rest);
            assert(seq!['&'] + s.skip(1) == s);
        } else if s[0] == '<' {
            assert(w.take(4) == seq!['&', 'l', 't', ';']);
            assert(w.skip(4) == rest);
            assert(w[1] == 'l');
            if w.len() >= 5 {
                assert(w.take(5)[1] == 'l');
                assert(seq!['&', 'a', 'm', 'p', ';'][1] == 'a');
            }
            assert(seq!['<'] + s.skip(1) == s);
        } else {
            assert(w[0] == s[0]);
            if w.len() >= 5 {
                assert(w.take(5)[0] == s[0]);
                assert(seq!['&', 'a', 'm', 'p', ';'][0] == '&');
            }
            if w.len() >= 4 {
                assert(w.take(4)[0] == s[0]);
                assert(seq!['&', 'l', 't', ';'][0] == '&');
            }
            assert(w.skip(1) == rest);
            assert(seq![s[0]] + s.skip(1) == s);
        }
    }
}

/// Text without tags is escaped as a whole, and reads back.
pub proof fn law_text_alone_is_escaped(text: Seq<char>)
    ensures
        unescaped(mended(text, Seq::empty())) == text,
        !mended(text, Seq::empty()).contains('<'),
{
    let bytes = encode_utf8(text);
    encode_utf8_valid_utf8(text);
    encode_utf8_decode_utf8(text);
    assert(bytes.subrange(0, bytes.len() as int) == bytes);
    if bytes.len() == 0 {
        assert(bytes == Seq::<u8>::empty());
        assert(decode_utf8(Seq::<u8>::empty()) == Seq::<char>::empty());
        assert(text == Seq::<char>::empty());
        assert(unescaped(Seq::empty()) == Seq::<char>::empty());
    } else {
        law_escaped_reads_back(text);
        law_escaped_opens_no_tag(text);
    }
}

/// An end tag closes what a start tag opened, however many elements are open; a tag that closes
/// itself, and an end tag where nothing is open, change nothing.
pub proof fn law_tags_open_and_close(start: Seq<char>, end: Seq<char>, alone: Seq<char>, depth: int)
    requires
        depth >= 0,
        start.len() >= 2,
        !(start[0] == '<' && start[1] == '/'),
        !(start[start.len() - 2] == '/' && start[start.len() - 1] == '>'),
        end.len() >= 2,
        end[0] == '<' && end[1] == '/',
        alone.len() >= 2,
        !(alone[0] == '<' && alone[1] == '/'),
        alone[alone.len() - 2] == '/' && alone[alone.len() - 1] == '>',
    ensures
        depth_after(start, depth) > depth,
        depth_after(end, depth_after(start, depth)) == depth,
        depth_after(alone, depth) == depth,
        depth_after(end, 0) == 0,
{
    reveal_strlit("</");
    reveal_strlit("/>");
    assert(stands_at(end, "</"@, 0)) by {
        assert(end.subrange(0, 2) == "</"@);
    }
    assert(stands_at(alone, "/>"@, alone.len() - 2)) by {
        assert(alone.subrange(alone.len() - 2, alone.len() as int) == "/>"@);
    }
    if stands_at(start, "</"@, 0) {
        assert(start.subrange(0, 2)[0] == '<' && start.subrange(0, 2)[1] == '/');
    }
    if stands_at(alone, "</"@, 0) {
        assert(alone.subrange(0, 2)[0] == '<' && alone.subrange(0, 2)[1] == '/');
    }
    let n = start.len();
    if stands_at(start, "/>"@, n - 2) {
        assert(start.subrange(n - 2, n as int)[0] == '/' && start.subrange(n - 2, n as int)[1] == '>');
    }
}

/// Text that looks like a tag of another language stays text: mending goes on as if it were no tag.
pub proof fn law_unknown_tags_are_text(
    text: Seq<char>,
    before: Seq<(int, int, Option<Seq<char>>)>,
    start: int,
    end: int,
    name: Seq<char>,
)
    requires
        !is_known_name(name),
    ensures
        mended(text, before.push((start, end, Some(name)))) == mended(text, before),
{
    let tags = before.push((start, end, Some(name)));
    assert(tags.drop_last() == before);
}

/// What is written up to a tag is never taken back: each further tag only adds to it.
pub proof fn law_written_stays_written(
    text: Seq<char>,
    tags: Seq<(int, int, Option<Seq<char>>)>,
    n: int,
)
    requires
        0 <= n <= tags.len(),
    ensures
        mend_tags(text, tags.take(n)).out.is_prefix_of(mended(text, tags)),
    decreases tags.len() - n,
{
    let m = mend_tags(text, tags.take(n));
    if n < tags.len() {
        law_written_stays_written(text, tags, n + 1);
        assert(tags.take(n + 1).drop_last() == tags.take(n));
        let next = mend_tags(text, tags.take(n + 1));
        assert(m.out.is_prefix_of(next.out)) by {
            if is_kept(m, tags[n]) {
                assert(next.out == m.out + (mended_text(text, m.pos, tags[n].0, m.depth) + slice(
                    text,
                    tags[n].0,
                    tags[n].1,
                )));
            }
            assert(next.out.subrange(0, m.out.len() as int) == m.out);
        }
        assert(m.out == mended(text, tags).subrange(0, m.out.len() as int)) by {
            assert(next.out == mended(text, tags).subrange(0, next.out.len() as int));
            assert(m.out == next.out.subrange(0, m.out.len() as int));
        }
    } else {
        assert(tags.take(n) == tags);
        assert(m.out == mended(text, tags).subrange(0, m.out.len() as int));
    }
}

} // verus!
