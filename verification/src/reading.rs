//! How an event-stream reader sees an encoded event: its lines, and the event it
//! reads back from them.
use vstd::prelude::*;
use vstd::utf8::encode_utf8;
use crate::lines::{
    closed_lines, open_line, strip_cr, lines, join_lines, lemma_lines_have_no_line_feed,
    lemma_lines_avoid, lemma_lines_nonempty, lemma_append_open, LF, CR,
};
use crate::event::{
    EventView, event_stream_bytes, field_line, data_fields, data_block, event_prefix, id_prefix,
    data_prefix, opt_no_line_break, no_line_break_bytes, lemma_encode_no_line_break,
    lemma_encode_no_cr, lemma_data_lines_give_back_data, lemma_encode_nonempty,
};

verus! {

/// The UTF-8 bytes of an optional text.
pub open spec fn opt_bytes(s: Option<Seq<char>>) -> Option<Seq<u8>> {
    match s {
        Some(s) => Some(encode_utf8(s)),
        None => None,
    }
}

/// The line of an optional field: its prefix and value, or no line when absent.
pub open spec fn opt_line(prefix: Seq<u8>, value: Option<Seq<char>>) -> Seq<Seq<u8>> {
    match value {
        Some(v) => seq![prefix + encode_utf8(v)],
        None => seq![],
    }
}

/// The `data: ` lines of an optional data field, one per line of its text.
pub open spec fn data_lines(data: Option<Seq<char>>) -> Seq<Seq<u8>> {
    match data {
        Some(d) => lines(encode_utf8(d)).map_values(|l: Seq<u8>| data_prefix() + l),
        None => seq![],
    }
}

/// The lines of an event's encoding before the blank line that ends it: the `event`
/// line if any, the `id` line if any, then the `data` lines.
pub open spec fn field_lines(e: EventView) -> Seq<Seq<u8>> {
    opt_line(event_prefix(), e.event) + opt_line(id_prefix(), e.id) + data_lines(e.data)
}

/// Lines, each followed by a line feed.
pub open spec fn terminated(ls: Seq<Seq<u8>>) -> Seq<u8>
    decreases ls.len(),
{
    if ls.len() == 0 {
        seq![]
    } else {
        terminated(ls.drop_last()) + ls.last() + seq![LF]
    }
}

/// The line starts with the given prefix.
pub open spec fn starts_with(l: Seq<u8>, p: Seq<u8>) -> bool {
    p.len() <= l.len() && l.take(p.len() as int) == p
}

/// The prefix a line of an event's encoding starts with, by its position: the first
/// lines are the `event` line (if any) and the `id` line (if any), all others are
/// `data` lines.
pub open spec fn prefix_at(e: EventView, i: int) -> Seq<u8> {
    let ne: int = if e.event is Some { 1 } else { 0 };
    let ni: int = if e.id is Some { 1 } else { 0 };
    if i < ne {
        event_prefix()
    } else if i < ne + ni {
        id_prefix()
    } else {
        data_prefix()
    }
}

proof fn lemma_terminated_add(a: Seq<Seq<u8>>, b: Seq<Seq<u8>>)
    ensures
        terminated(a + b) == terminated(a) + terminated(b),
    decreases b.len(),
{
    if b.len() == 0 {
        assert(a + b =~= a);
        assert(terminated(a) + terminated(b) =~= terminated(a));
    } else {
        lemma_terminated_add(a, b.drop_last());
        assert((a + b).drop_last() =~= a + b.drop_last());
        assert((a + b).last() == b.last());
        assert(terminated(a + b) =~= terminated(a) + terminated(b));
    }
}

proof fn lemma_terminated_one(x: Seq<u8>)
    ensures
        terminated(seq![x]) == x + seq![LF],
{
    assert(seq![x].drop_last() =~= Seq::<Seq<u8>>::empty());
    assert(terminated(Seq::<Seq<u8>>::empty()) == Seq::<u8>::empty());
    assert(terminated(seq![x]) =~= x + seq![LF]);
}

proof fn lemma_terminated_data(ls: Seq<Seq<u8>>)
    ensures
        terminated(ls.map_values(|l: Seq<u8>| data_prefix() + l)) == data_fields(ls),
    decreases ls.len(),
{
    if ls.len() > 0 {
        lemma_terminated_data(ls.drop_last());
        let m = ls.map_values(|l: Seq<u8>| data_prefix() + l);
        assert(m.drop_last() =~= ls.drop_last().map_values(|l: Seq<u8>| data_prefix() + l));
        assert(terminated(m) =~= data_fields(ls));
    }
}

proof fn lemma_prefix_constants()
    ensures
        forall|j: int| 0 <= j < event_prefix().len() ==> #[trigger] event_prefix()[j] != LF
            && event_prefix()[j] != CR,
        forall|j: int| 0 <= j < id_prefix().len() ==> #[trigger] id_prefix()[j] != LF
            && id_prefix()[j] != CR,
        forall|j: int| 0 <= j < data_prefix().len() ==> #[trigger] data_prefix()[j] != LF
            && data_prefix()[j] != CR,
{
}

/// The encoding of an event is its field lines, each followed by a line feed, then
/// the line feed of the closing blank line. There is at most one `event` line and
/// at most one `id` line, both before the `data` lines; every line starts with its
/// field's prefix (`event: `, `id: ` or `data: `), and none holds a line feed.
pub proof fn lemma_line_layout(e: EventView)
    requires
        opt_no_line_break(e.event),
        opt_no_line_break(e.id),
    ensures
        event_stream_bytes(e) == terminated(field_lines(e)) + seq![LF],
        forall|i: int, j: int|
            0 <= i < field_lines(e).len() && 0 <= j < field_lines(e)[i].len()
                ==> #[trigger] field_lines(e)[i][j] != LF,
        forall|i: int|
            0 <= i < field_lines(e).len() ==> starts_with(#[trigger] field_lines(e)[i], prefix_at(e, i)),
        opt_line(event_prefix(), e.event).len() <= 1,
        opt_line(id_prefix(), e.id).len() <= 1,
{
    let a = opt_line(event_prefix(), e.event);
    let b = opt_line(id_prefix(), e.id);
    let c = data_lines(e.data);
    let fl = field_lines(e);
    lemma_prefix_constants();
    lemma_terminated_add(a, b);
    lemma_terminated_add(a + b, c);
    if let Some(v) = e.event {
        lemma_terminated_one(event_prefix() + encode_utf8(v));
        lemma_encode_no_line_break(v);
    }
    if let Some(v) = e.id {
        lemma_terminated_one(id_prefix() + encode_utf8(v));
        lemma_encode_no_line_break(v);
    }
    if let Some(d) = e.data {
        lemma_terminated_data(lines(encode_utf8(d)));
        lemma_lines_have_no_line_feed(encode_utf8(d));
    }
    assert(terminated(a) == field_line(event_prefix(), e.event));
    assert(terminated(b) == field_line(id_prefix(), e.id));
    assert(terminated(c) == data_block(e.data));
    assert(event_stream_bytes(e) =~= terminated(fl) + seq![LF]);
    assert forall|i: int, j: int| 0 <= i < fl.len() && 0 <= j < fl[i].len() implies #[trigger] fl[i][j]
        != LF by {
        if i < a.len() {
            assert(fl[i] == a[i]);
            let v = e.event->0;
            if j >= event_prefix().len() {
                assert(fl[i][j] == encode_utf8(v)[j - event_prefix().len()]);
            }
        } else if i < a.len() + b.len() {
            assert(fl[i] == b[i - a.len()]);
            let v = e.id->0;
            if j >= id_prefix().len() {
                assert(fl[i][j] == encode_utf8(v)[j - id_prefix().len()]);
            }
        } else {
            let k = i - a.len() - b.len();
            let d = e.data->0;
            let ls = lines(encode_utf8(d));
            assert(fl[i] == c[k]);
            assert(c[k] == data_prefix() + ls[k]);
            if j >= data_prefix().len() {
                assert(fl[i][j] == ls[k][j - data_prefix().len()]);
            }
        }
    }
    assert forall|i: int| 0 <= i < fl.len() implies starts_with(#[trigger] fl[i], prefix_at(e, i)) by {
        if i < a.len() {
            assert(fl[i] == a[i]);
            assert(fl[i].take(event_prefix().len() as int) =~= event_prefix());
        } else if i < a.len() + b.len() {
            assert(fl[i] == b[i - a.len()]);
            assert(fl[i].take(id_prefix().len() as int) =~= id_prefix());
        } else {
            let k = i - a.len() - b.len();
            let d = e.data->0;
            let ls = lines(encode_utf8(d));
            assert(fl[i] == c[k]);
            assert(c[k] == data_prefix() + ls[k]);
            assert(fl[i].take(data_prefix().len() as int) =~= data_prefix());
        }
    }
}

/// What a reader has taken in of an event so far: the last `event` and `id` values,
/// and the `data` values joined by line feeds.
pub struct ReadEvent {
    pub event: Option<Seq<u8>>,
    pub id: Option<Seq<u8>>,
    pub data: Option<Seq<u8>>,
}

/// Nothing taken in yet.
pub open spec fn no_fields() -> ReadEvent {
    ReadEvent { event: None, id: None, data: None }
}

/// The position of the first colon in a line, or its length when it has none.
pub open spec fn first_colon(l: Seq<u8>) -> int
    decreases l.len(),
{
    if l.len() == 0 {
        0
    } else if l[0] == 58u8 {
        0
    } else {
        1 + first_colon(l.drop_first())
    }
}

/// The field name of a line: what comes before its first colon (the whole line if
/// it has none).
pub open spec fn field_name(l: Seq<u8>) -> Seq<u8> {
    l.take(first_colon(l))
}

/// The field value of a line: what comes after its first colon, one leading space
/// dropped (nothing if the line has no colon).
pub open spec fn field_value(l: Seq<u8>) -> Seq<u8> {
    let rest = if first_colon(l) < l.len() {
        l.skip(first_colon(l) + 1)
    } else {
        seq![]
    };
    if rest.len() > 0 && rest[0] == 32u8 {
        rest.drop_first()
    } else {
        rest
    }
}

/// `event`
pub open spec fn event_field() -> Seq<u8> {
    seq![101u8, 118u8, 101u8, 110u8, 116u8]
}

/// `id`
pub open spec fn id_field() -> Seq<u8> {
    seq![105u8, 100u8]
}

/// `data`
pub open spec fn data_field() -> Seq<u8> {
    seq![100u8, 97u8, 116u8, 97u8]
}

/// A data value added to what was read of the data: it becomes the data, or is
/// joined to it with a line feed.
pub open spec fn add_data(data: Option<Seq<u8>>, v: Seq<u8>) -> Option<Seq<u8>> {
    match data {
        None => Some(v),
        Some(d) => Some(d + seq![LF] + v),
    }
}

/// What a reader makes of one non-blank line: an `event` or `id` line sets that
/// field, a `data` line adds to the data, any other line changes nothing.
pub open spec fn take_line(r: ReadEvent, l: Seq<u8>) -> ReadEvent {
    let name = field_name(l);
    let v = field_value(l);
    if name == event_field() {
        ReadEvent { event: Some(v), ..r }
    } else if name == id_field() {
        ReadEvent { id: Some(v), ..r }
    } else if name == data_field() {
        ReadEvent { data: add_data(r.data, v), ..r }
    } else {
        r
    }
}

/// The event a blank line hands on: the one read so far, if it has data.
pub open spec fn dispatch(r: ReadEvent) -> Seq<ReadEvent> {
    if r.data is Some {
        seq![r]
    } else {
        seq![]
    }
}

/// The events a reader hands on from the given lines, starting from what it has
/// read of the current event: each blank line ends an event.
pub open spec fn read_lines(ls: Seq<Seq<u8>>, cur: ReadEvent) -> Seq<ReadEvent>
    decreases ls.len(),
{
    if ls.len() == 0 {
        seq![]
    } else if ls[0].len() == 0 {
        dispatch(cur) + read_lines(ls.drop_first(), no_fields())
    } else {
        read_lines(ls.drop_first(), take_line(cur, ls[0]))
    }
}

/// The events an event-stream reader gets from the bytes: it splits them into lines
/// ended by a line feed (a carriage return before it dropped), reads each line's
/// field, and hands on an event at each blank line.
pub open spec fn read_stream(b: Seq<u8>) -> Seq<ReadEvent> {
    read_lines(closed_lines(b), no_fields())
}

/// What a reader has read after the given lines, none of them blank.
pub open spec fn take_lines(ls: Seq<Seq<u8>>, cur: ReadEvent) -> ReadEvent
    decreases ls.len(),
{
    if ls.len() == 0 {
        cur
    } else {
        take_lines(ls.drop_first(), take_line(cur, ls[0]))
    }
}

/// The data read from data values, front to back.
pub open spec fn add_all(data: Option<Seq<u8>>, vs: Seq<Seq<u8>>) -> Option<Seq<u8>>
    decreases vs.len(),
{
    if vs.len() == 0 {
        data
    } else {
        add_all(add_data(data, vs[0]), vs.drop_first())
    }
}

proof fn lemma_first_colon_at(s: Seq<u8>, k: int)
    requires
        0 <= k < s.len(),
        s[k] == 58u8,
        forall|j: int| 0 <= j < k ==> #[trigger] s[j] != 58u8,
    ensures
        first_colon(s) == k,
    decreases k,
{
    if k > 0 {
        let t = s.drop_first();
        assert forall|j: int| 0 <= j < k - 1 implies #[trigger] t[j] != 58u8 by {
            assert(t[j] == s[j + 1]);
        }
        lemma_first_colon_at(t, k - 1);
    }
}

/// A line made of a field prefix (a name, a colon and a space) and a value reads as
/// that field with that value.
proof fn lemma_prefixed_line(name: Seq<u8>, v: Seq<u8>)
    requires
        forall|j: int| 0 <= j < name.len() ==> #[trigger] name[j] != 58u8,
    ensures
        field_name(name + seq![58u8, 32u8] + v) == name,
        field_value(name + seq![58u8, 32u8] + v) == v,
{
    let l = name + seq![58u8, 32u8] + v;
    let k = name.len() as int;
    assert forall|j: int| 0 <= j < k implies #[trigger] l[j] != 58u8 by {
        assert(l[j] == name[j]);
    }
    lemma_first_colon_at(l, k);
    assert(l.take(k) =~= name);
    let rest = l.skip(k + 1);
    assert(rest =~= seq![32u8] + v);
    assert(rest.drop_first() =~= v);
}

proof fn lemma_read_until_blank(ls: Seq<Seq<u8>>, cur: ReadEvent)
    requires
        forall|i: int| 0 <= i < ls.len() ==> #[trigger] ls[i].len() > 0,
    ensures
        read_lines(ls.push(seq![]), cur) == dispatch(take_lines(ls, cur)),
    decreases ls.len(),
{
    let with_blank = ls.push(seq![]);
    if ls.len() == 0 {
        assert(with_blank.drop_first() =~= Seq::<Seq<u8>>::empty());
        assert(read_lines(Seq::<Seq<u8>>::empty(), no_fields()) == Seq::<ReadEvent>::empty());
        assert(dispatch(cur) + Seq::<ReadEvent>::empty() =~= dispatch(cur));
    } else {
        let rest = ls.drop_first();
        assert(with_blank.drop_first() =~= rest.push(seq![]));
        assert forall|i: int| 0 <= i < rest.len() implies #[trigger] rest[i].len() > 0 by {
            assert(rest[i] == ls[i + 1]);
        }
        assert(ls[0].len() > 0);
        lemma_read_until_blank(rest, take_line(cur, ls[0]));
    }
}

proof fn lemma_take_lines_add(a: Seq<Seq<u8>>, b: Seq<Seq<u8>>, cur: ReadEvent)
    ensures
        take_lines(a + b, cur) == take_lines(b, take_lines(a, cur)),
    decreases a.len(),
{
    if a.len() == 0 {
        assert(a + b =~= b);
    } else {
        assert((a + b).drop_first() =~= a.drop_first() + b);
        assert((a + b)[0] == a[0]);
        lemma_take_lines_add(a.drop_first(), b, take_line(cur, a[0]));
    }
}

proof fn lemma_take_data_lines(vs: Seq<Seq<u8>>, cur: ReadEvent)
    ensures
        take_lines(vs.map_values(|l: Seq<u8>| data_prefix() + l), cur) == (ReadEvent {
            data: add_all(cur.data, vs),
            ..cur
        }),
    decreases vs.len(),
{
    let m = vs.map_values(|l: Seq<u8>| data_prefix() + l);
    if vs.len() > 0 {
        assert(data_prefix() =~= data_field() + seq![58u8, 32u8]);
        lemma_prefixed_line(data_field(), vs[0]);
        assert(m[0] == data_prefix() + vs[0]);
        assert(event_field() != data_field()) by {
            assert(event_field().len() != data_field().len());
        }
        assert(id_field() != data_field()) by {
            assert(id_field().len() != data_field().len());
        }
        assert(m.drop_first() =~= vs.drop_first().map_values(|l: Seq<u8>| data_prefix() + l));
        lemma_take_data_lines(vs.drop_first(), take_line(cur, m[0]));
    }
}

proof fn lemma_add_all_push(data: Option<Seq<u8>>, vs: Seq<Seq<u8>>, v: Seq<u8>)
    ensures
        add_all(data, vs.push(v)) == add_data(add_all(data, vs), v),
    decreases vs.len(),
{
    if vs.len() == 0 {
        assert(vs.push(v).drop_first() =~= Seq::<Seq<u8>>::empty());
        assert(vs.push(v)[0] == v);
        assert(add_all(add_data(data, v), Seq::<Seq<u8>>::empty()) == add_data(data, v));
        assert(add_all(data, vs) == data);
    } else {
        assert(vs.push(v).drop_first() =~= vs.drop_first().push(v));
        assert(vs.push(v)[0] == vs[0]);
        lemma_add_all_push(add_data(data, vs[0]), vs.drop_first(), v);
    }
}

proof fn lemma_add_all_joins(vs: Seq<Seq<u8>>)
    requires
        vs.len() > 0,
    ensures
        add_all(None, vs) == Some(join_lines(vs)),
    decreases vs.len(),
{
    let init = vs.drop_last();
    lemma_add_all_push(None, init, vs.last());
    assert(init.push(vs.last()) =~= vs);
    if init.len() == 0 {
        assert(add_all(None, init) == None::<Seq<u8>>);
    } else {
        lemma_add_all_joins(init);
    }
}

proof fn lemma_closed_lines_of_terminated(ls: Seq<Seq<u8>>)
    requires
        forall|i: int, j: int| 0 <= i < ls.len() && 0 <= j < ls[i].len() ==> #[trigger] ls[i][j] != LF,
        forall|i: int| 0 <= i < ls.len() && #[trigger] ls[i].len() > 0 ==> ls[i].last() != CR,
    ensures
        closed_lines(terminated(ls)) == ls,
        open_line(terminated(ls)) == Seq::<u8>::empty(),
    decreases ls.len(),
{
    if ls.len() == 0 {
        assert(terminated(ls) == Seq::<u8>::empty());
        assert(closed_lines(Seq::<u8>::empty()) =~= ls);
    } else {
        let init = ls.drop_last();
        let l = ls.last();
        assert forall|i: int, j: int| 0 <= i < init.len() && 0 <= j < init[i].len() implies #[trigger] init[i][j]
            != LF by {
            assert(init[i] == ls[i]);
        }
        assert forall|i: int| 0 <= i < init.len() && #[trigger] init[i].len() > 0 implies init[i].last()
            != CR by {
            assert(init[i] == ls[i]);
        }
        lemma_closed_lines_of_terminated(init);
        let t = terminated(init);
        assert forall|j: int| 0 <= j < l.len() implies #[trigger] l[j] != LF by {
            assert(l[j] == ls[ls.len() - 1][j]);
        }
        lemma_append_open(t, l);
        assert(open_line(t) + l =~= l);
        let whole = terminated(ls);
        assert(whole =~= (t + l).push(LF));
        assert(whole.drop_last() =~= t + l);
        assert(strip_cr(l) == l);
        assert(closed_lines(whole) =~= ls);
    }
}

proof fn lemma_single_take(x: Seq<u8>, r: ReadEvent)
    ensures
        take_lines(seq![x], r) == take_line(r, x),
{
    assert(seq![x].drop_first() =~= Seq::<Seq<u8>>::empty());
    assert(seq![x][0] == x);
    assert(take_lines(Seq::<Seq<u8>>::empty(), take_line(r, x)) == take_line(r, x));
}

/// An event-stream reader reads an encoded event back: exactly one event, with the
/// event's `event` and `id` values and its data, when the data is not empty, holds no
/// carriage return and does not end with a line feed.
pub proof fn lemma_reader_gets_event_back(e: EventView)
    requires
        opt_no_line_break(e.event),
        opt_no_line_break(e.id),
        e.data is Some,
        e.data->0.len() > 0,
        forall|j: int| 0 <= j < e.data->0.len() ==> e.data->0[j] != '\r',
        e.data->0.last() != '\n',
    ensures
        read_stream(event_stream_bytes(e)) == seq![
            ReadEvent { event: opt_bytes(e.event), id: opt_bytes(e.id), data: opt_bytes(e.data) },
        ],
{
    let d = e.data->0;
    let enc = encode_utf8(d);
    let a = opt_line(event_prefix(), e.event);
    let b = opt_line(id_prefix(), e.id);
    let ls = lines(enc);
    let c = data_lines(e.data);
    let fl = field_lines(e);
    lemma_line_layout(e);
    lemma_prefix_constants();
    lemma_encode_no_cr(d);
    lemma_lines_avoid(enc, CR);
    lemma_data_lines_give_back_data(d);
    lemma_encode_nonempty(d);
    if let Some(v) = e.event {
        lemma_encode_no_line_break(v);
    }
    if let Some(v) = e.id {
        lemma_encode_no_line_break(v);
    }
    // no line is empty or ends with a carriage return
    assert forall|i: int| 0 <= i < fl.len() implies #[trigger] fl[i].len() > 0 && fl[i].last() != CR by {
        assert(starts_with(fl[i], prefix_at(e, i)));
        if i < a.len() {
            assert(fl[i] == a[i]);
            let v = e.event->0;
            if encode_utf8(v).len() > 0 {
                assert(fl[i].last() == encode_utf8(v).last());
            } else {
                assert(fl[i].last() == event_prefix().last());
            }
        } else if i < a.len() + b.len() {
            assert(fl[i] == b[i - a.len()]);
            let v = e.id->0;
            if encode_utf8(v).len() > 0 {
                assert(fl[i].last() == encode_utf8(v).last());
            } else {
                assert(fl[i].last() == id_prefix().last());
            }
        } else {
            let k = i - a.len() - b.len();
            assert(fl[i] == c[k]);
            assert(c[k] == data_prefix() + ls[k]);
            if ls[k].len() > 0 {
                assert(fl[i].last() == ls[k][ls[k].len() - 1]);
            } else {
                assert(fl[i].last() == data_prefix().last());
            }
        }
    }
    assert forall|i: int| 0 <= i < fl.len() && #[trigger] fl[i].len() > 0 implies fl[i].last() != CR by {}
    lemma_closed_lines_of_terminated(fl);
    let bytes = event_stream_bytes(e);
    assert(bytes.drop_last() =~= terminated(fl));
    assert(closed_lines(bytes) =~= fl.push(seq![]));
    lemma_read_until_blank(fl, no_fields());
    // the reader takes in the event line, the id line, then the data lines
    lemma_take_lines_add(a, b, no_fields());
    lemma_take_lines_add(a + b, c, no_fields());
    assert(event_prefix() =~= event_field() + seq![58u8, 32u8]);
    assert(id_prefix() =~= id_field() + seq![58u8, 32u8]);
    assert(event_field() != id_field()) by {
        assert(event_field().len() != id_field().len());
    }
    let r1 = take_lines(a, no_fields());
    if let Some(v) = e.event {
        lemma_single_take(event_prefix() + encode_utf8(v), no_fields());
        lemma_prefixed_line(event_field(), encode_utf8(v));
        assert(r1 == ReadEvent { event: Some(encode_utf8(v)), id: None, data: None });
    } else {
        assert(r1 == no_fields());
    }
    let r2 = take_lines(b, r1);
    if let Some(v) = e.id {
        lemma_single_take(id_prefix() + encode_utf8(v), r1);
        lemma_prefixed_line(id_field(), encode_utf8(v));
        assert(r2 == ReadEvent { id: Some(encode_utf8(v)), ..r1 });
    } else {
        assert(r2 == r1);
    }
    assert(ls.len() > 0) by {
        if ls.len() == 0 {
            assert(join_lines(ls) == Seq::<u8>::empty());
        }
    }
    lemma_take_data_lines(ls, r2);
    lemma_add_all_joins(ls);
    let r3 = take_lines(c, r2);
    assert(r3 == ReadEvent { event: opt_bytes(e.event), id: opt_bytes(e.id), data: Some(enc) });
    assert(take_lines(fl, no_fields()) == r3);
}

} // verus!
