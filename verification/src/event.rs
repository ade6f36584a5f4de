//! A single Server-Sent-Events message and its encoding in the event-stream format.
use vstd::prelude::*;
use vstd::utf8::{char_u32_cast, encode_utf8, encode_scalar};
use vstd::string::StringSliceAdditionalSpecFns;
use vstd::std_specs::convert::IntoSpec;
use crate::lines::{
    closed_lines, join_lines, lemma_join_lines_of_lines, lemma_lines_have_no_line_feed, lines,
    open_line, strip_cr, CR, LF,
};

verus! {

/// A single SSE message, with optional `event`, `data`, and `id` fields. Neither
/// `event` nor `id` ever holds a line feed or a carriage return.
pub struct Event {
    event: Option<String>,
    id: Option<String>,
    data: Option<String>,
}

/// What an [`Event`] holds, as text.
pub struct EventView {
    pub event: Option<Seq<char>>,
    pub id: Option<Seq<char>>,
    pub data: Option<Seq<char>>,
}

/// The text of an optional string field.
pub open spec fn opt_text(s: Option<String>) -> Option<Seq<char>> {
    match s {
        Some(s) => Some(s@),
        None => None,
    }
}

impl View for Event {
    type V = EventView;

    closed spec fn view(&self) -> EventView {
        EventView { event: opt_text(self.event), id: opt_text(self.id), data: opt_text(self.data) }
    }
}

/// The text holds neither a line feed nor a carriage return.
pub open spec fn no_line_break(s: Seq<char>) -> bool {
    forall|i: int| 0 <= i < s.len() ==> s[i] != '\n' && s[i] != '\r'
}

/// The optional text is absent or holds no line break.
pub open spec fn opt_no_line_break(s: Option<Seq<char>>) -> bool {
    match s {
        Some(s) => no_line_break(s),
        None => true,
    }
}

/// `event: `
pub open spec fn event_prefix() -> Seq<u8> {
    seq![101u8, 118u8, 101u8, 110u8, 116u8, 58u8, 32u8]
}

/// `id: `
pub open spec fn id_prefix() -> Seq<u8> {
    seq![105u8, 100u8, 58u8, 32u8]
}

/// `data: `
pub open spec fn data_prefix() -> Seq<u8> {
    seq![100u8, 97u8, 116u8, 97u8, 58u8, 32u8]
}

/// One field line: its name and separator, the value's UTF-8 bytes and a line feed;
/// nothing when the value is absent.
pub open spec fn field_line(prefix: Seq<u8>, value: Option<Seq<char>>) -> Seq<u8> {
    match value {
        Some(v) => prefix + encode_utf8(v) + seq![LF],
        None => seq![],
    }
}

/// One `data: ` line for each of the given lines, in order.
pub open spec fn data_fields(ls: Seq<Seq<u8>>) -> Seq<u8>
    decreases ls.len(),
{
    if ls.len() == 0 {
        seq![]
    } else {
        data_fields(ls.drop_last()) + data_prefix() + ls.last() + seq![LF]
    }
}

/// The `data: ` lines of an optional data field: one for each line of its text.
pub open spec fn data_block(data: Option<Seq<char>>) -> Seq<u8> {
    match data {
        Some(d) => data_fields(lines(encode_utf8(d))),
        None => seq![],
    }
}

/// An event in the event-stream format: its `event` line, its `id` line, one `data`
/// line for each line of its data, and the blank line that ends the message.
pub open spec fn event_stream_bytes(e: EventView) -> Seq<u8> {
    field_line(event_prefix(), e.event) + field_line(id_prefix(), e.id) + data_block(e.data)
        + seq![LF]
}

/// Appends `src[from..to]` to `out`.
pub(crate) fn append_range(out: &mut Vec<u8>, src: &[u8], from: usize, to: usize)
    requires
        from <= to <= src@.len(),
    ensures
        final(out)@ == old(out)@ + src@.subrange(from as int, to as int),
{
    let mut i = from;
    while i < to
        invariant
            from <= i <= to <= src@.len(),
            out@ == old(out)@ + src@.subrange(from as int, i as int),
        decreases to - i,
    {
        out.push(src[i]);
        i = i + 1;
        assert(out@ =~= old(out)@ + src@.subrange(from as int, i as int));
    }
}

/// Appends `data: `.
fn push_data_prefix(out: &mut Vec<u8>)
    ensures
        final(out)@ == old(out)@ + data_prefix(),
{
    out.push(100u8);
    out.push(97u8);
    out.push(116u8);
    out.push(97u8);
    out.push(58u8);
    out.push(32u8);
    assert(out@ =~= old(out)@ + data_prefix());
}

/// Appends one `data: ` line for each line of `data`.
fn push_data_lines(out: &mut Vec<u8>, data: &[u8])
    ensures
        final(out)@ == old(out)@ + data_fields(lines(data@)),
{
    let mut start: usize = 0;
    let mut i: usize = 0;
    while i < data.len()
        invariant
            0 <= start <= i <= data@.len(),
            data@.subrange(start as int, i as int) == open_line(data@.take(i as int)),
            out@ == old(out)@ + data_fields(closed_lines(data@.take(i as int))),
        decreases data@.len() - i,
    {
        let ghost pre = data@.take(i as int);
        let ghost next = data@.take(i + 1);
        assert(next.drop_last() =~= pre);
        assert(next.last() == data@[i as int]);
        if data[i] == LF {
            let mut end = i;
            if end > start && data[end - 1] == CR {
                end = end - 1;
            }
            assert(data@.subrange(start as int, end as int) == strip_cr(open_line(pre))) by {
                if i > start && data@[i - 1] == CR {
                    assert(data@.subrange(start as int, end as int) =~= data@.subrange(
                        start as int,
                        i as int,
                    ).drop_last());
                }
            }
            push_data_prefix(out);
            append_range(out, data, start, end);
            out.push(LF);
            let ghost line = strip_cr(open_line(pre));
            assert(closed_lines(next) == closed_lines(pre).push(line));
            assert(closed_lines(next).drop_last() =~= closed_lines(pre));
            assert(out@ =~= old(out)@ + data_fields(closed_lines(next)));
            start = i + 1;
            i = i + 1;
            assert(data@.subrange(start as int, i as int) =~= open_line(next));
        } else {
            i = i + 1;
            assert(data@.subrange(start as int, i as int) =~= open_line(pre).push(data@[i - 1]));
        }
    }
    assert(data@.take(i as int) =~= data@);
    if start < data.len() {
        let ghost cl = closed_lines(data@);
        let ghost ol = open_line(data@);
        push_data_prefix(out);
        append_range(out, data, start, data.len());
        out.push(LF);
        assert(lines(data@) == cl.push(ol));
        assert(cl.push(ol).drop_last() =~= cl);
        assert(out@ =~= old(out)@ + data_fields(lines(data@)));
    }
}

/// Appends the field prefix, the value's UTF-8 bytes and a line feed.
fn push_field(out: &mut Vec<u8>, prefix: &[u8], value: &String)
    ensures
        final(out)@ == old(out)@ + prefix@ + encode_utf8(value@) + seq![LF],
{
    let bytes = value.as_str().as_bytes();
    append_range(out, prefix, 0, prefix.len());
    append_range(out, bytes, 0, bytes.len());
    out.push(LF);
    assert(prefix@.subrange(0, prefix@.len() as int) =~= prefix@);
    assert(bytes@.subrange(0, bytes@.len() as int) =~= bytes@);
    assert(out@ =~= old(out)@ + prefix@ + encode_utf8(value@) + seq![LF]);
}

impl Event {
    /// The `event` and `id` fields hold no line break, so that neither can start a
    /// line or a message of its own in the encoding.
    #[verifier::type_invariant]
    closed spec fn fields_are_single_lines(self) -> bool {
        opt_no_line_break(opt_text(self.event)) && opt_no_line_break(opt_text(self.id))
    }

    /// Creates a new Event with only the data field specified.
    pub fn data<S: Into<String>>(data: S) -> (e: Self)
        ensures
            e@.event is None,
            e@.id is None,
            e@.data is Some,
            S::obeys_into_spec() ==> e@.data == Some(data.into_spec()@),
            exists|s: String| call_ensures(S::into, (data,), s) && e@.data == Some(s@),
    {
        let d: String = data.into();
        assert(call_ensures(S::into, (data,), d));
        Event { event: None, id: None, data: Some(d) }
    }

    /// Creates a new Event with event, data, and id all (optionally) specified.
    ///
    /// Neither `event` nor `id` may contain a line feed or a carriage return.
    pub fn new(event: Option<String>, data: Option<String>, id: Option<String>) -> (e: Self)
        requires
            opt_no_line_break(opt_text(event)),
            opt_no_line_break(opt_text(id)),
        ensures
            e@.event == opt_text(event),
            e@.data == opt_text(data),
            e@.id == opt_text(id),
    {
        Event { event, id, data }
    }

    /// The event in the event-stream format, as bytes. Every event's `event` and `id`
    /// are free of line breaks, so the encoding is exactly one message.
    pub fn serialize(self) -> (bytes: Vec<u8>)
        ensures
            bytes@ == event_stream_bytes(self@),
            opt_no_line_break(self@.event),
            opt_no_line_break(self@.id),
            one_message(bytes@),
    {
        proof {
            use_type_invariant(&self);
            lemma_one_message(self@);
        }
        let mut vec: Vec<u8> = Vec::new();
        let prefix_event: [u8; 7] = [101u8, 118u8, 101u8, 110u8, 116u8, 58u8, 32u8];
        let prefix_id: [u8; 4] = [105u8, 100u8, 58u8, 32u8];
        assert(prefix_event@ =~= event_prefix());
        assert(prefix_id@ =~= id_prefix());
        if let Some(event) = &self.event {
            push_field(&mut vec, prefix_event.as_slice(), event);
        }
        assert(vec@ =~= field_line(event_prefix(), self@.event));
        if let Some(id) = &self.id {
            push_field(&mut vec, prefix_id.as_slice(), id);
        }
        assert(vec@ =~= field_line(event_prefix(), self@.event) + field_line(id_prefix(), self@.id));
        if let Some(data) = &self.data {
            push_data_lines(&mut vec, data.as_str().as_bytes());
        }
        assert(vec@ =~= field_line(event_prefix(), self@.event) + field_line(id_prefix(), self@.id)
            + data_block(self@.data));
        vec.push(LF);
        vec
    }
}


/// A copy of an optional text.
fn clone_text(s: &Option<String>) -> (c: Option<String>)
    ensures
        opt_text(c) == opt_text(*s),
{
    match s {
        Some(t) => Some(t.clone()),
        None => None,
    }
}

impl Clone for Event {
    fn clone(&self) -> (c: Self)
        ensures
            c@ == self@,
    {
        proof {
            use_type_invariant(self);
        }
        Event { event: clone_text(&self.event), id: clone_text(&self.id), data: clone_text(&self.data) }
    }
}

/// The bytes form exactly one event-stream message: they end with a line feed, and
/// the blank line that ends them is the only blank line in them.
pub open spec fn one_message(b: Seq<u8>) -> bool {
    &&& b.len() > 0
    &&& b.last() == LF
    &&& forall|i: int| 0 <= i < b.len() - 1 ==> !blank_line_at(b, i)
}

/// Holds where a line of `b` starts that is blank: a line feed at the very start, or
/// right after another line feed.
pub open spec fn blank_line_at(b: Seq<u8>, i: int) -> bool {
    b[i] == LF && (i == 0 || b[i - 1] == LF)
}

/// Bytes made of whole lines, none of them blank: empty, or starting with a byte
/// other than a line feed, ending with a line feed, and never holding two line feeds
/// in a row.
pub open spec fn nonblank_lines(s: Seq<u8>) -> bool {
    s.len() == 0 || (s[0] != LF && s.last() == LF && forall|i: int|
        1 <= i < s.len() && #[trigger] s[i] == LF ==> s[i - 1] != LF)
}

/// No byte of `s` is a line feed or a carriage return.
pub open spec fn no_line_break_bytes(s: Seq<u8>) -> bool {
    forall|j: int| 0 <= j < s.len() ==> #[trigger] s[j] != LF && s[j] != CR
}

/// A byte of the UTF-8 encoding of a scalar is a line feed (a carriage return) only
/// when the scalar is one.
proof fn lemma_scalar_bytes(c: u32)
    ensures
        forall|j: int|
            0 <= j < encode_scalar(c).len() ==> (#[trigger] encode_scalar(c)[j] == LF ==> c == 10)
                && (encode_scalar(c)[j] == CR ==> c == 13),
        encode_scalar(c).len() > 0,
        encode_scalar(c).last() == LF ==> c == 10,
{
    let x1 = ((c >> 6) & 0x1F) as u8;
    let x2 = ((c >> 12) & 0x0F) as u8;
    let x3 = ((c >> 18) & 0x7) as u8;
    let y0 = (c & 0x3F) as u8;
    let y1 = ((c >> 6) & 0x3F) as u8;
    let y2 = ((c >> 12) & 0x3F) as u8;
    assert(c <= 0x7F ==> (((c & 0x7F) as u8 == 10u8 ==> c == 10) && ((c & 0x7F) as u8 == 13u8
        ==> c == 13))) by (bit_vector);
    assert((0xC0u8 | x1) >= 0x80u8) by (bit_vector);
    assert((0xE0u8 | x2) >= 0x80u8) by (bit_vector);
    assert((0xF0u8 | x3) >= 0x80u8) by (bit_vector);
    assert((0x80u8 | y0) >= 0x80u8) by (bit_vector);
    assert((0x80u8 | y1) >= 0x80u8) by (bit_vector);
    assert((0x80u8 | y2) >= 0x80u8) by (bit_vector);
}

/// The code of a character is that of a line feed (a carriage return) only when the
/// character is one.
proof fn lemma_char_code(c: char)
    ensures
        (c as u32) == 10 ==> c == '\n',
        (c as u32) == 13 ==> c == '\r',
{
    let u = c as u32;
    char_u32_cast(c, u);
    if u == 10 {
        assert(10u32 as char == '\n');
    }
    if u == 13 {
        assert(13u32 as char == '\r');
    }
}

/// Non-empty text is encoded into non-empty bytes.
pub proof fn lemma_encode_nonempty(s: Seq<char>)
    requires
        s.len() > 0,
    ensures
        encode_utf8(s).len() > 0,
{
    lemma_scalar_bytes(s[0] as u32);
    assert(encode_utf8(s) == encode_scalar(s[0] as u32) + encode_utf8(s.drop_first()));
}

/// The UTF-8 encoding of a concatenation is the concatenation of the encodings.
pub proof fn lemma_encode_utf8_add(a: Seq<char>, b: Seq<char>)
    ensures
        encode_utf8(a + b) == encode_utf8(a) + encode_utf8(b),
    decreases a.len(),
{
    if a.len() == 0 {
        assert(a + b =~= b);
    } else {
        lemma_encode_utf8_add(a.drop_first(), b);
        assert((a + b).drop_first() =~= a.drop_first() + b);
    }
}

/// Text without line breaks is encoded without line-feed or carriage-return bytes,
/// and non-empty text into non-empty bytes.
pub proof fn lemma_encode_no_line_break(s: Seq<char>)
    requires
        no_line_break(s),
    ensures
        no_line_break_bytes(encode_utf8(s)),
        s.len() > 0 ==> encode_utf8(s).len() > 0,
    decreases s.len(),
{
    if s.len() > 0 {
        let rest = s.drop_first();
        lemma_encode_no_line_break(rest);
        lemma_scalar_bytes(s[0] as u32);
        let e = encode_scalar(s[0] as u32);
        assert(encode_utf8(s) == e + encode_utf8(rest));
        assert(s[0] != '\n' && s[0] != '\r');
        lemma_char_code(s[0]);
        assert forall|j: int| 0 <= j < encode_utf8(s).len() implies #[trigger] encode_utf8(s)[j]
            != LF && encode_utf8(s)[j] != CR by {
            if j < e.len() {
                assert(encode_utf8(s)[j] == e[j]);
            } else {
                assert(encode_utf8(s)[j] == encode_utf8(rest)[j - e.len()]);
            }
        }
    }
}

/// Bytes without a line feed form one line (or none, when empty).
proof fn lemma_lines_without_line_feed(s: Seq<u8>)
    requires
        forall|j: int| 0 <= j < s.len() ==> #[trigger] s[j] != LF,
    ensures
        closed_lines(s) == Seq::<Seq<u8>>::empty(),
        open_line(s) == s,
    decreases s.len(),
{
    if s.len() > 0 {
        let p = s.drop_last();
        assert forall|j: int| 0 <= j < p.len() implies #[trigger] p[j] != LF by {
            assert(p[j] == s[j]);
        }
        lemma_lines_without_line_feed(p);
        assert(open_line(s) =~= s);
    }
}

/// A data event whose text is one line without line breaks is encoded as one
/// `data: ` line and the blank line that ends the message.
pub proof fn lemma_single_line_data(d: Seq<char>)
    requires
        no_line_break(d),
        d.len() > 0,
    ensures
        event_stream_bytes(EventView { event: None, id: None, data: Some(d) }) == data_prefix()
            + encode_utf8(d) + seq![LF, LF],
{
    lemma_encode_no_line_break(d);
    let b = encode_utf8(d);
    lemma_lines_without_line_feed(b);
    assert(lines(b) == seq![b]);
    assert(seq![b].drop_last() =~= Seq::<Seq<u8>>::empty());
    assert(data_fields(Seq::<Seq<u8>>::empty()) == Seq::<u8>::empty());
    assert(data_fields(seq![b]) =~= data_prefix() + b + seq![LF]);
    assert(event_stream_bytes(EventView { event: None, id: None, data: Some(d) }) =~= data_prefix()
        + encode_utf8(d) + seq![LF, LF]);
}

proof fn lemma_nonblank_add(a: Seq<u8>, b: Seq<u8>)
    requires
        nonblank_lines(a),
        nonblank_lines(b),
    ensures
        nonblank_lines(a + b),
{
    let s = a + b;
    if a.len() > 0 && b.len() > 0 {
        assert forall|i: int| 1 <= i < s.len() && #[trigger] s[i] == LF implies s[i - 1] != LF by {
            if i < a.len() {
                assert(s[i] == a[i] && s[i - 1] == a[i - 1]);
            } else if i == a.len() {
                assert(s[i] == b[0]);
            } else {
                assert(s[i] == b[i - a.len()] && s[i - 1] == b[i - 1 - a.len()]);
            }
        }
    } else if a.len() == 0 {
        assert(s =~= b);
    } else {
        assert(s =~= a);
    }
}

/// A line made of a non-empty prefix that does not start with a line feed, then
/// bytes without line feeds, then a line feed, is one non-blank line.
proof fn lemma_one_nonblank_line(prefix: Seq<u8>, body: Seq<u8>)
    requires
        prefix.len() > 0,
        forall|j: int| 0 <= j < prefix.len() ==> #[trigger] prefix[j] != LF,
        forall|j: int| 0 <= j < body.len() ==> #[trigger] body[j] != LF,
    ensures
        nonblank_lines(prefix + body + seq![LF]),
{
    let s = prefix + body + seq![LF];
    assert forall|i: int| 1 <= i < s.len() && #[trigger] s[i] == LF implies s[i - 1] != LF by {
        if i < prefix.len() {
            assert(s[i] == prefix[i]);
        } else if i < prefix.len() + body.len() {
            assert(s[i] == body[i - prefix.len()]);
        } else {
            if i - 1 < prefix.len() {
                assert(s[i - 1] == prefix[i - 1]);
            } else {
                assert(s[i - 1] == body[i - 1 - prefix.len()]);
            }
        }
    }
}

proof fn lemma_data_fields_nonblank(ls: Seq<Seq<u8>>)
    requires
        forall|i: int, j: int| 0 <= i < ls.len() && 0 <= j < ls[i].len() ==> #[trigger] ls[i][j] != LF,
    ensures
        nonblank_lines(data_fields(ls)),
    decreases ls.len(),
{
    if ls.len() > 0 {
        let p = ls.drop_last();
        assert forall|i: int, j: int| 0 <= i < p.len() && 0 <= j < p[i].len() implies #[trigger] p[i][j]
            != LF by {
            assert(p[i] == ls[i]);
        }
        lemma_data_fields_nonblank(p);
        let l = ls.last();
        assert forall|j: int| 0 <= j < l.len() implies #[trigger] l[j] != LF by {
            assert(l[j] == ls[ls.len() - 1][j]);
        }
        lemma_one_nonblank_line(data_prefix(), l);
        lemma_nonblank_add(data_fields(p), data_prefix() + l + seq![LF]);
        assert(data_fields(ls) =~= data_fields(p) + (data_prefix() + l + seq![LF]));
    }
}

proof fn lemma_field_line_nonblank(prefix: Seq<u8>, value: Option<Seq<char>>)
    requires
        prefix.len() > 0,
        forall|j: int| 0 <= j < prefix.len() ==> #[trigger] prefix[j] != LF,
        opt_no_line_break(value),
    ensures
        nonblank_lines(field_line(prefix, value)),
{
    if let Some(v) = value {
        lemma_encode_no_line_break(v);
        let b = encode_utf8(v);
        assert forall|j: int| 0 <= j < b.len() implies #[trigger] b[j] != LF by {}
        lemma_one_nonblank_line(prefix, b);
    }
}

/// An event whose `event` and `id` hold no line break is encoded as exactly one
/// message: the encoding ends with a line feed, and the blank line that ends it is
/// the only blank line in it, so an event-stream reader sees one event per encoding.
pub proof fn lemma_one_message(e: EventView)
    requires
        opt_no_line_break(e.event),
        opt_no_line_break(e.id),
    ensures
        one_message(event_stream_bytes(e)),
{
    let ep = event_prefix();
    let ip = id_prefix();
    let dp = data_prefix();
    assert(ep[0] != LF && ep[1] != LF && ep[2] != LF && ep[3] != LF && ep[4] != LF && ep[5] != LF
        && ep[6] != LF);
    assert(ip[0] != LF && ip[1] != LF && ip[2] != LF && ip[3] != LF);
    assert(dp[0] != LF && dp[1] != LF && dp[2] != LF && dp[3] != LF && dp[4] != LF && dp[5] != LF);
    lemma_field_line_nonblank(ep, e.event);
    lemma_field_line_nonblank(ip, e.id);
    if let Some(d) = e.data {
        lemma_lines_have_no_line_feed(encode_utf8(d));
        lemma_data_fields_nonblank(lines(encode_utf8(d)));
    }
    let a = field_line(ep, e.event);
    let b = field_line(ip, e.id);
    let c = data_block(e.data);
    lemma_nonblank_add(a, b);
    lemma_nonblank_add(a + b, c);
    let block = a + b + c;
    let s = event_stream_bytes(e);
    assert(s =~= block + seq![LF]);
    assert forall|i: int| 0 <= i < s.len() - 1 implies !blank_line_at(s, i) by {
        assert(s[i] == block[i]);
        if i > 0 {
            assert(s[i - 1] == block[i - 1]);
        }
    }
}

/// What a reader gets back from the `data: ` lines of an encoded event, by joining
/// them with line feeds, is the event's data, when the data holds no carriage return
/// and does not end with a line feed.
pub proof fn lemma_data_lines_give_back_data(d: Seq<char>)
    requires
        forall|j: int| 0 <= j < d.len() ==> d[j] != '\r',
        d.len() > 0 ==> d.last() != '\n',
    ensures
        join_lines(lines(encode_utf8(d))) == encode_utf8(d),
{
    lemma_encode_no_cr(d);
    if d.len() > 0 {
        let init = d.drop_last();
        lemma_encode_utf8_add(init, seq![d.last()]);
        assert(init + seq![d.last()] =~= d);
        lemma_scalar_bytes(d.last() as u32);
        let tail = encode_utf8(seq![d.last()]);
        assert(seq![d.last()].drop_first() =~= Seq::<char>::empty());
        assert(encode_utf8(Seq::<char>::empty()) == Seq::<u8>::empty());
        assert(tail =~= encode_scalar(d.last() as u32));
        lemma_char_code(d.last());
        assert(encode_utf8(d).last() == tail.last());
    }
    lemma_join_lines_of_lines(encode_utf8(d));
}

pub proof fn lemma_encode_no_cr(s: Seq<char>)
    requires
        forall|j: int| 0 <= j < s.len() ==> s[j] != '\r',
    ensures
        forall|j: int| 0 <= j < encode_utf8(s).len() ==> #[trigger] encode_utf8(s)[j] != CR,
    decreases s.len(),
{
    if s.len() > 0 {
        let rest = s.drop_first();
        lemma_encode_no_cr(rest);
        lemma_scalar_bytes(s[0] as u32);
        let e = encode_scalar(s[0] as u32);
        assert(encode_utf8(s) == e + encode_utf8(rest));
        lemma_char_code(s[0]);
        assert forall|j: int| 0 <= j < encode_utf8(s).len() implies #[trigger] encode_utf8(s)[j]
            != CR by {
            if j < e.len() {
                assert(encode_utf8(s)[j] == e[j]);
            } else {
                assert(encode_utf8(s)[j] == encode_utf8(rest)[j - e.len()]);
            }
        }
    }
}

} // verus!
