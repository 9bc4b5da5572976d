//! Server-sent events: the framing of a streamed response.
use crate::json::{json_parse, Json, Tree};
use crate::text;
use vstd::prelude::*;
use vstd::string::StringExecFns;
use vstd::utf8::{decode_utf8, encode_utf8, valid_utf8};

verus! {

/// The words of std's error for bytes that are not UTF-8.
pub uninterp spec fn utf8_error(bytes: Seq<u8>) -> Seq<char>;

/// The text of `bytes`, or the words of the error.
pub open spec fn utf8_text(bytes: Seq<u8>) -> Result<Seq<char>, Seq<char>> {
    if valid_utf8(bytes) {
        Ok(decode_utf8(bytes))
    } else {
        Err(utf8_error(bytes))
    }
}

/// `String::from_utf8` of std: the text if the bytes are valid UTF-8, else an
/// error whose words depend on the bytes alone.
#[verifier::external_body]
pub(crate) fn from_utf8(bytes: Vec<u8>) -> (r: Result<String, String>)
    ensures
        match r {
            Ok(s) => valid_utf8(bytes@) && s@ == decode_utf8(bytes@),
            Err(e) => !valid_utf8(bytes@) && e@ == utf8_error(bytes@),
        },
{
    String::from_utf8(bytes).map_err(|e| e.to_string())
}

/// The text of bytes with what is not UTF-8 replaced, as std does it.
pub uninterp spec fn utf8_replaced(bytes: Seq<u8>) -> Seq<char>;

/// The text of `bytes`, as far as they are UTF-8.
pub open spec fn lossy_text(bytes: Seq<u8>) -> Seq<char> {
    if valid_utf8(bytes) {
        decode_utf8(bytes)
    } else {
        utf8_replaced(bytes)
    }
}

/// `String::from_utf8_lossy` of std: the text of valid UTF-8, and otherwise one
/// that depends on the bytes alone.
#[verifier::external_body]
pub(crate) fn lossy(bytes: &[u8]) -> (r: String)
    ensures
        r@ == (if valid_utf8(bytes@) { decode_utf8(bytes@) } else { utf8_replaced(bytes@) }),
{
    String::from_utf8_lossy(bytes).into_owned()
}

/// The limit on the bytes held for one event.
pub const EVENT_LIMIT: usize = 33554432;

/// Why a stream cannot be read on.
#[derive(Debug)]
pub enum StreamError {
    TooLong,
    Text(String),
    Json(String),
}

/// The model of [`StreamError`].
pub enum StreamErrorView {
    TooLong,
    Text(Seq<char>),
    Json(Seq<char>),
}

impl View for StreamError {
    type V = StreamErrorView;

    open spec fn view(&self) -> StreamErrorView {
        match self {
            StreamError::TooLong => StreamErrorView::TooLong,
            StreamError::Text(e) => StreamErrorView::Text(e@),
            StreamError::Json(e) => StreamErrorView::Json(e@),
        }
    }
}

impl StreamErrorView {
    /// The words for the error.
    pub open spec fn words(self) -> Seq<char> {
        match self {
            StreamErrorView::TooLong => "SSE event exceeds 32 MiB"@,
            StreamErrorView::Text(e) => e,
            StreamErrorView::Json(e) => e,
        }
    }
}

impl StreamError {
    /// The words for the error.
    pub fn message(self) -> (r: String)
        ensures
            r@ == self@.words(),
    {
        match self {
            StreamError::TooLong => "SSE event exceeds 32 MiB".to_owned(),
            StreamError::Text(e) => e,
            StreamError::Json(e) => e,
        }
    }
}

/// An event: its payload and the value in it.
#[derive(Debug)]
pub struct Payload {
    pub source: String,
    pub value: Json,
}

/// The model of [`Payload`].
pub struct PayloadView {
    pub source: Seq<char>,
    pub value: Tree,
}

impl View for Payload {
    type V = PayloadView;

    open spec fn view(&self) -> PayloadView {
        PayloadView { source: self.source@, value: self.value@ }
    }
}

/// What each event says.
pub open spec fn payload_views(events: Seq<Payload>) -> Seq<PayloadView> {
    events.map_values(|p: Payload| p@)
}

/// What is held of a stream: the bytes of an unfinished line and the data of
/// an unfinished event.
#[derive(Debug)]
pub struct Sse {
    pub pending: Vec<u8>,
    pub data: String,
}

/// The model of [`Sse`].
pub struct SseView {
    pub pending: Seq<u8>,
    pub data: Seq<char>,
}

impl View for Sse {
    type V = SseView;

    open spec fn view(&self) -> SseView {
        SseView { pending: self.pending@, data: self.data@ }
    }
}

impl Default for Sse {
    fn default() -> (r: Sse)
        ensures
            r@.pending.len() == 0,
            r@.data.len() == 0,
    {
        Sse { pending: Vec::new(), data: String::new() }
    }
}

/// The position of the first line feed, or the length.
pub open spec fn line_end(bytes: Seq<u8>) -> int
    decreases bytes.len(),
{
    if bytes.len() == 0 || bytes[0] == 10 {
        0
    } else {
        1 + line_end(bytes.drop_first())
    }
}

pub proof fn lemma_line_end(bytes: Seq<u8>)
    ensures
        0 <= line_end(bytes) <= bytes.len(),
        forall|k: int| 0 <= k < line_end(bytes) ==> #[trigger] bytes[k] != 10,
        line_end(bytes) < bytes.len() ==> bytes[line_end(bytes)] == 10,
    decreases bytes.len(),
{
    if bytes.len() > 0 && bytes[0] != 10 {
        let t = bytes.drop_first();
        lemma_line_end(t);
        assert forall|k: int| 0 <= k < line_end(bytes) implies #[trigger] bytes[k] != 10 by {
            if k > 0 {
                assert(bytes[k] == t[k - 1]);
            }
        }
        if line_end(bytes) < bytes.len() {
            assert(bytes[line_end(bytes)] == t[line_end(t)]);
        }
    }
}

pub proof fn lemma_line_end_is(bytes: Seq<u8>, n: int)
    requires
        0 <= n <= bytes.len(),
        forall|k: int| 0 <= k < n ==> #[trigger] bytes[k] != 10,
        n < bytes.len() ==> bytes[n] == 10,
    ensures
        line_end(bytes) == n,
{
    lemma_line_end(bytes);
    let m = line_end(bytes);
    if m < n {
        assert(bytes[m] != 10);
    } else if n < m {
        assert(bytes[n] != 10);
    }
}

/// Carriage returns and line feeds.
pub open spec fn eol() -> spec_fn(char) -> bool {
    |c: char| c == '\r' || c == '\n'
}

/// A line without its line ending.
pub open spec fn without_eol(line: Seq<char>) -> Seq<char> {
    line.take(line.len() - text::span_back(line, eol()))
}

/// `s` behind `prefix`, if it begins with it.
pub open spec fn past(s: Seq<char>, prefix: Seq<char>) -> Option<Seq<char>> {
    if prefix.is_prefix_of(s) {
        Some(s.skip(prefix.len() as int))
    } else {
        None
    }
}

/// The data of the event after one more `data:` line.
pub open spec fn more_data(data: Seq<char>, value: Seq<char>) -> Seq<char> {
    let kept = match past(value, " "@) {
        Some(v) => v,
        None => value,
    };
    if data.len() > 0 {
        data.push('\n') + kept
    } else {
        data + kept
    }
}

/// What one line does: the data after it, and the payload of the event that
/// it ends. The payload `[DONE]` is none.
pub open spec fn line_step(data: Seq<char>, line: Seq<char>) -> (Seq<char>, Option<Seq<char>>) {
    if line.len() == 0 {
        (
            Seq::empty(),
            if data.len() > 0 && text::trim(data) != "[DONE]"@ {
                Some(data)
            } else {
                None
            },
        )
    } else {
        match past(line, "data:"@) {
            Some(value) => (more_data(data, value), None),
            None => (data, None),
        }
    }
}

/// What complete lines yield: the bytes and the data left over, and the events.
pub struct Drained {
    pub left: SseView,
    pub events: Seq<PayloadView>,
}

/// Why complete lines cannot be read on, and what is left behind the line where
/// that shows.
pub struct Broken {
    pub error: StreamErrorView,
    pub left: SseView,
}

/// Reads every complete line of `sse`.
pub open spec fn drained(sse: SseView) -> Result<Drained, Broken>
    decreases sse.pending.len(),
{
    let n = line_end(sse.pending);
    if n < 0 || n >= sse.pending.len() {
        Ok(Drained { left: sse, events: seq![] })
    } else {
        let behind = SseView { pending: sse.pending.skip(n + 1), ..sse };
        match utf8_text(sse.pending.take(n + 1)) {
            Err(e) => Err(Broken { error: StreamErrorView::Text(e), left: behind }),
            Ok(line) => {
                let (data, payload) = line_step(sse.data, without_eol(line));
                let rest = SseView { data, ..behind };
                match payload {
                    None => drained(rest),
                    Some(source) => match json_parse(source) {
                        Err(e) => Err(Broken { error: StreamErrorView::Json(e), left: behind }),
                        Ok(value) => match drained(rest) {
                            Err(e) => Err(e),
                            Ok(d) => Ok(
                                Drained { left: d.left, events: seq![PayloadView { source, value }] + d.events },
                            ),
                        },
                    },
                }
            },
        }
    }
}

/// `sse` with more bytes behind what is pending.
pub open spec fn fed(sse: SseView, bytes: Seq<u8>) -> SseView {
    SseView { pending: sse.pending + bytes, data: sse.data }
}

/// Whether more is held than one event may have.
pub open spec fn too_long(sse: SseView) -> bool {
    sse.pending.len() + encode_utf8(sse.data).len() > EVENT_LIMIT
}

fn strip_prefix(s: &[char], prefix: &str) -> (r: Option<Vec<char>>)
    ensures
        r is Some <==> past(s@, prefix@) is Some,
        r matches Some(t) ==> past(s@, prefix@) == Some(t@),
{
    let prefix = text::chars(prefix);
    if text::starts_with(s, &prefix) {
        let t = text::slice(s, prefix.len(), s.len());
        assert(t@ =~= s@.skip(prefix@.len() as int));
        Some(t)
    } else {
        None
    }
}

/// Takes in one line: the payload of the event that it ends, if any.
pub fn take_line(data: &mut String, line: &[char]) -> (r: Option<String>)
    ensures
        ({
            let (after, payload) = line_step(old(data)@, without_eol(line@));
            final(data)@ == after && (match payload {
                Some(p) => r is Some && r->0@ == p,
                None => r is None,
            })
        }),
{
    let mut end: usize = line.len();
    while end > 0 && (line[end - 1] == '\r' || line[end - 1] == '\n')
        invariant
            end <= line@.len(),
            forall|k: int| end <= k < line@.len() ==> eol()(#[trigger] line@[k]),
        decreases end,
    {
        end -= 1;
    }
    proof {
        text::lemma_span_back_is(line@, eol(), line@.len() - end);
    }
    let line = text::slice(line, 0, end);
    if line.len() == 0 {
        let mut payload = String::new();
        std::mem::swap(&mut payload, data);
        let trimmed = text::string(&text::trimmed(&text::chars(&payload)));
        if !payload.as_str().is_empty() && !text::same(&trimmed, "[DONE]") {
            Some(payload)
        } else {
            None
        }
    } else {
        match strip_prefix(&line, "data:") {
            Some(value) => {
                if !data.as_str().is_empty() {
                    data.push('\n');
                }
                match strip_prefix(&value, " ") {
                    Some(v) => data.append(&text::string(&v)),
                    None => data.append(&text::string(&value)),
                }
                None
            },
            None => None,
        }
    }
}

impl Sse {
    /// Takes in bytes and hands out the events that they complete.
    pub fn feed(&mut self, bytes: &[u8]) -> (r: Result<Vec<Payload>, StreamError>)
        ensures
            ({
                let all = fed(old(self)@, bytes@);
                if too_long(all) {
                    r is Err && r->Err_0@ == StreamErrorView::TooLong && final(self)@ == all
                } else {
                    match drained(all) {
                        Ok(d) => r is Ok && payload_views(r->Ok_0@) == d.events && final(self)@ == d.left,
                        Err(b) => r is Err && r->Err_0@ == b.error && final(self)@ == b.left,
                    }
                }
            }),
    {
        let ghost all = fed(self@, bytes@);
        self.pending.extend_from_slice(bytes);
        assert(self.pending@ =~= all.pending);
        if self.pending.len().saturating_add(self.data.as_str().as_bytes().len()) > EVENT_LIMIT {
            return Err(StreamError::TooLong);
        }
        let mut events: Vec<Payload> = Vec::new();
        let mut start: usize = 0;
        let mut i: usize = 0;
        assert(all.pending.skip(0) =~= all.pending);
        assert(payload_views(events@) =~= seq![]);
        proof {
            if let Ok(d) = drained(all) {
                assert(payload_views(events@) + d.events =~= d.events);
            }
        }
        while i < self.pending.len()
            invariant
                start <= i <= self.pending@.len(),
                self.pending@ == all.pending,
                all == fed(old(self)@, bytes@),
                !too_long(all),
                forall|k: int| start <= k < i ==> #[trigger] all.pending[k] != 10,
                match drained(SseView { pending: all.pending.skip(start as int), data: self.data@ }) {
                    Ok(d) => drained(all) == Ok::<Drained, Broken>(
                        Drained { left: d.left, events: payload_views(events@) + d.events },
                    ),
                    Err(b) => drained(all) == Err::<Drained, Broken>(b),
                },
            decreases self.pending@.len() - i,
        {
            if self.pending[i] == 10 {
                let line_bytes = vstd::slice::slice_to_vec(
                    vstd::slice::slice_subrange(self.pending.as_slice(), start, i + 1),
                );
                let ghost here = SseView { pending: all.pending.skip(start as int), data: self.data@ };
                let ghost n = i - start;
                proof {
                    lemma_line_end_is(here.pending, n);
                    assert(here.pending.take(n + 1) =~= line_bytes@);
                    assert(here.pending.skip(n + 1) =~= all.pending.skip(i + 1));
                }
                let line = match from_utf8(line_bytes) {
                    Ok(line) => line,
                    Err(e) => {
                        self.drop_first(i + 1);
                        return Err(StreamError::Text(e));
                    },
                };
                let payload = take_line(&mut self.data, &text::chars(&line));
                if let Some(source) = payload {
                    match Json::parse(&source) {
                        Err(e) => {
                            self.drop_first(i + 1);
                            self.data = source;
                            return Err(StreamError::Json(e));
                        },
                        Ok(value) => {
                            let ghost before = events@;
                            let event = Payload { source, value };
                            events.push(event);
                            proof {
                                assert(payload_views(events@) =~= payload_views(before).push(event@));
                                let rest = SseView { pending: all.pending.skip(i + 1), data: self.data@ };
                                if let Ok(d) = drained(rest) {
                                    assert(payload_views(before) + (seq![event@] + d.events) =~= payload_views(events@)
                                        + d.events);
                                }
                            }
                        },
                    }
                }
                start = i + 1;
            }
            i += 1;
        }
        proof {
            let here = SseView { pending: all.pending.skip(start as int), data: self.data@ };
            lemma_line_end_is(here.pending, here.pending.len() as int);
            assert(drained(here)->Ok_0.left == here);
            assert(payload_views(events@) + seq![] =~= payload_views(events@));
        }
        self.drop_first(start);
        Ok(events)
    }

    /// Drops the first `n` bytes that are pending.
    fn drop_first(&mut self, n: usize)
        requires
            n <= old(self)@.pending.len(),
        ensures
            final(self)@ == (SseView { pending: old(self)@.pending.skip(n as int), ..old(self)@ }),
    {
        let rest = vstd::slice::slice_to_vec(
            vstd::slice::slice_subrange(self.pending.as_slice(), n, self.pending.len()),
        );
        assert(rest@ =~= self.pending@.skip(n as int));
        self.pending = rest;
    }
}

/// However a stream is cut into chunks, the events in it are the same: what the
/// whole yields is what its beginning yields, and then what the rest yields
/// behind what the beginning left over.
pub proof fn law_chunks_do_not_matter(sse: SseView, first: Seq<u8>, second: Seq<u8>)
    ensures
        drained(fed(sse, first + second)) == (match drained(fed(sse, first)) {
            Err(b) => Err(Broken { error: b.error, left: fed(b.left, second) }),
            Ok(a) => match drained(fed(a.left, second)) {
                Err(e) => Err(e),
                Ok(b) => Ok(Drained { left: b.left, events: a.events + b.events }),
            },
        }),
{
    let start = fed(sse, first);
    assert(fed(sse, first + second).pending =~= fed(start, second).pending);
    lemma_drained_on(start, second);
}

/// Bytes behind what is pending do not change what the complete lines yield.
proof fn lemma_drained_on(sse: SseView, more: Seq<u8>)
    ensures
        drained(fed(sse, more)) == (match drained(sse) {
            Err(b) => Err(Broken { error: b.error, left: fed(b.left, more) }),
            Ok(a) => match drained(fed(a.left, more)) {
                Err(e) => Err(e),
                Ok(b) => Ok(Drained { left: b.left, events: a.events + b.events }),
            },
        }),
    decreases sse.pending.len(),
{
    let all = fed(sse, more);
    let n = line_end(sse.pending);
    lemma_line_end(sse.pending);
    if n >= sse.pending.len() {
        if let Ok(b) = drained(all) {
            assert(Seq::<PayloadView>::empty() + b.events =~= b.events);
        }
    } else {
        lemma_line_end_is(all.pending, n);
        assert(all.pending.take(n + 1) =~= sse.pending.take(n + 1));
        assert(all.pending.skip(n + 1) =~= sse.pending.skip(n + 1) + more);
        if let Ok(line) = utf8_text(sse.pending.take(n + 1)) {
            let (data, payload) = line_step(sse.data, without_eol(line));
            let rest = SseView { pending: sse.pending.skip(n + 1), data };
            lemma_drained_on(rest, more);
            assert(all.pending.skip(n + 1) =~= fed(rest, more).pending);
            if let Some(source) = payload {
                if let Ok(value) = json_parse(source) {
                    if let Ok(a) = drained(rest) {
                        if let Ok(b) = drained(fed(a.left, more)) {
                            let head = seq![PayloadView { source, value }];
                            assert((head + a.events) + b.events =~= head + (a.events + b.events));
                        }
                    }
                }
            }
        }
    }
}

/// What lines do: a `data:` line adds what stands behind it, without one space,
/// on a line of its own; an empty line ends the event and gives what was
/// gathered, but for an empty event and the mark of the end; other lines are
/// passed over.
pub proof fn law_lines_build_events(data: Seq<char>, value: Seq<char>, line: Seq<char>)
    ensures
        line_step(data, "data: "@ + value) == (
            if data.len() > 0 { data + "\n"@ + value } else { value },
            None::<Seq<char>>,
        ),
        value.len() == 0 || value[0] != ' ' ==> line_step(data, "data:"@ + value) == (
            if data.len() > 0 { data + "\n"@ + value } else { value },
            None::<Seq<char>>,
        ),
        line_step(data, Seq::empty()).0 == Seq::<char>::empty(),
        data.len() > 0 && text::trim(data) != "[DONE]"@ ==> line_step(data, Seq::empty()).1 == Some(data),
        data.len() == 0 || text::trim(data) == "[DONE]"@ ==> line_step(data, Seq::empty()).1 is None,
        line.len() > 0 && !"data:"@.is_prefix_of(line) ==> line_step(data, line) == (data, None::<Seq<char>>),
{
    reveal_strlit("data:");
    reveal_strlit("data: ");
    reveal_strlit(" ");
    reveal_strlit("\n");
    let spaced = "data: "@ + value;
    assert(spaced.take(5) =~= "data:"@);
    assert("data:"@.is_prefix_of(spaced));
    assert(spaced.skip(5) =~= " "@ + value);
    let behind = " "@ + value;
    assert(behind.take(1) =~= " "@);
    assert(" "@.is_prefix_of(behind));
    assert(behind.skip(1) =~= value);
    let tight = "data:"@ + value;
    assert(tight.take(5) =~= "data:"@);
    assert("data:"@.is_prefix_of(tight));
    assert(tight.skip(5) =~= value);
    if " "@.is_prefix_of(value) {
        assert(value.take(1)[0] == value[0]);
    }
    assert(data.push('\n') + value =~= data + "\n"@ + value);
    if data.len() == 0 {
        assert(data + value =~= value);
    }
}

/// The end of a line is no part of it, whether it is a line feed alone or with
/// carriage returns before it; nothing else goes.
pub proof fn law_line_ends_are_dropped(line: Seq<char>)
    requires
        line.len() == 0 || (line.last() != '\r' && line.last() != '\n'),
    ensures
        without_eol(line) == line,
        without_eol(line.push('\n')) == line,
        without_eol(line.push('\r').push('\n')) == line,
{
    let p = eol();
    if line.len() > 0 {
        assert(!p(line.last()));
    }
    text::lemma_span_back_is(line, p, 0);
    assert(line.take(line.len() as int) =~= line);
    let a = line.push('\n');
    assert(p('\n') && p('\r'));
    text::lemma_span_back_is(a, p, 1);
    assert(a.take(a.len() - 1) =~= line);
    let b = line.push('\r').push('\n');
    text::lemma_span_back_is(b, p, 2);
    assert(b.take(b.len() - 2) =~= line);
}

/// A stream is read line by line, in order, each line once: what a complete line
/// does comes first, and then what the lines behind it do. An unfinished line is
/// held until its end comes.
pub proof fn law_streams_are_read_in_order(data: Seq<char>, line: Seq<u8>, rest: Seq<u8>)
    requires
        !line.contains(10),
        valid_utf8(line.push(10)),
    ensures
        ({
            let here = SseView { pending: line.push(10) + rest, data };
            let (kept, payload) = line_step(data, without_eol(decode_utf8(line.push(10))));
            let behind = drained(SseView { pending: rest, data: kept });
            &&& payload is None ==> drained(here) == behind
            &&& payload matches Some(source) ==> match json_parse(source) {
                Err(e) => drained(here) matches Err(b) && b.error == StreamErrorView::Json(e),
                Ok(value) => match behind {
                    Err(b) => drained(here) == Err::<Drained, Broken>(b),
                    Ok(d) => drained(here) matches Ok(all) && all.left == d.left && all.events == seq![
                        PayloadView { source, value },
                    ] + d.events,
                },
            }
        }),
        ({
            let held = SseView { pending: line, data };
            drained(held) matches Ok(d) && d.left == held && d.events.len() == 0
        }),
{
    let pending = line.push(10) + rest;
    let n = line.len() as int;
    assert forall|k: int| 0 <= k < n implies #[trigger] pending[k] != 10 by {
        assert(pending[k] == line[k]);
        if line[k] == 10 {
            assert(line.contains(10));
        }
    }
    assert(pending[n] == 10);
    lemma_line_end_is(pending, n);
    assert(pending.take(n + 1) =~= line.push(10));
    assert(pending.skip(n + 1) =~= rest);
    assert forall|k: int| 0 <= k < n implies #[trigger] line[k] != 10 by {
        if line[k] == 10 {
            assert(line.contains(10));
        }
    }
    lemma_line_end_is(line, n);
}

/// More is held than one event may have only beyond 32 MiB.
pub proof fn law_events_may_be_long(sse: SseView)
    ensures
        too_long(sse) <==> sse.pending.len() + encode_utf8(sse.data).len() > 32 * 1024 * 1024,
{
}

/// A failure of the stream is told in its own words, and an event that is too
/// long by its limit.
pub proof fn law_stream_failures_are_told(e: Seq<char>)
    ensures
        StreamErrorView::TooLong.words() == "SSE event exceeds 32 MiB"@,
        StreamErrorView::Text(e).words() == e,
        StreamErrorView::Json(e).words() == e,
{
}

} // verus!
