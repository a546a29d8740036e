//! Relaying a streamed chat reply: the model server sends newline-delimited
//! JSON objects; each complete line with a non-empty `message.content` becomes
//! one token event for the browser, and a line with `"done": true` ends the
//! reply.
//!
//! The relay is a state machine: the caller performs the network reads and
//! hands each chunk (or the failure or end of the stream) to a
//! [`ReplyStream`], which answers with the events to send.

use vstd::prelude::*;
use crate::text::{chars_of, extend_str, is_ws, string_of, sub_chars, trim, trim_chars, trim_end, trim_start};

verus! {

/// What a byte chunk reads as, when invalid UTF-8 sequences are replaced by
/// U+FFFD.
pub uninterp spec fn utf8_lossy(bytes: Seq<u8>) -> Seq<char>;

/// The fields that a reply line carries, when it is a JSON document: the
/// string at `message.content` (if there is one) and the boolean at `done`
/// (if there is one). `None` when the line is not JSON.
pub uninterp spec fn reply_line_fields(line: Seq<char>) -> Option<(Option<Seq<char>>, Option<bool>)>;

/// The text of a byte chunk: its characters when it is valid UTF-8, and
/// otherwise what lossy decoding makes of it.
pub open spec fn chunk_text(bytes: Seq<u8>) -> Seq<char> {
    if vstd::utf8::valid_utf8(bytes) {
        vstd::utf8::decode_utf8(bytes)
    } else {
        utf8_lossy(bytes)
    }
}

/// `String::from_utf8_lossy` of std: decodes `bytes` as UTF-8, replacing
/// each invalid sequence by U+FFFD. The contract states what std documents,
/// that valid UTF-8 is decoded as it is, and names the result for other
/// input (the same bytes give the same text). Which replacement characters
/// stand for invalid input is not stated.
#[verifier::external_body]
fn decode_lossy(bytes: &[u8]) -> (res: String)
    ensures
        res@ == if vstd::utf8::valid_utf8(bytes@) {
            vstd::utf8::decode_utf8(bytes@)
        } else {
            utf8_lossy(bytes@)
        },
{
    String::from_utf8_lossy(bytes).into_owned()
}

/// The fields read from one reply line.
pub struct ReplyFields {
    pub content: Option<String>,
    pub done: Option<bool>,
}

impl View for ReplyFields {
    type V = (Option<Seq<char>>, Option<bool>);

    open spec fn view(&self) -> (Option<Seq<char>>, Option<bool>) {
        (
            match self.content {
                Some(c) => Some(c@),
                None => None,
            },
            self.done,
        )
    }
}

/// `serde_json::from_str::<serde_json::Value>` on one line, then
/// `Value::pointer("/message/content")` with `Value::as_str`, and
/// `Value::get("done")` with `Value::as_bool`. The contract names the
/// result: the same line always gives the same fields; it does not state the
/// JSON grammar.
#[verifier::external_body]
fn read_reply_line(line: &str) -> (res: Option<ReplyFields>)
    ensures
        match res {
            Some(f) => reply_line_fields(line@) == Some(f@),
            None => reply_line_fields(line@) is None,
        },
{
    match serde_json::from_str::<serde_json::Value>(line) {
        Ok(v) => Some(ReplyFields {
            content: v.pointer("/message/content").and_then(serde_json::Value::as_str).map(
                String::from,
            ),
            done: v.get("done").and_then(serde_json::Value::as_bool),
        }),
        Err(_) => None,
    }
}

/// The hexadecimal digit of `n` (lower case), for `n < 16`.
pub open spec fn hex_digit(n: u32) -> char {
    if n < 10 {
        (('0' as u32) + n) as char
    } else {
        (('a' as u32) + n - 10) as char
    }
}

/// How JSON writes the character `c` inside a string: `"` and `\` and the
/// control characters below U+0020 are escaped (with the short forms `\b`,
/// `\t`, `\n`, `\f`, `\r` where JSON has them, `\u00XX` otherwise); every
/// other character stands as it is.
pub open spec fn json_escape_char(c: char) -> Seq<char> {
    if c == '"' {
        seq!['\\', '"']
    } else if c == '\\' {
        seq!['\\', '\\']
    } else if c == '\u{8}' {
        seq!['\\', 'b']
    } else if c == '\t' {
        seq!['\\', 't']
    } else if c == '\n' {
        seq!['\\', 'n']
    } else if c == '\u{c}' {
        seq!['\\', 'f']
    } else if c == '\r' {
        seq!['\\', 'r']
    } else if (c as u32) < 0x20 {
        seq!['\\', 'u', '0', '0', hex_digit((c as u32) / 16), hex_digit((c as u32) % 16)]
    } else {
        seq![c]
    }
}

/// The escaped characters of `s`.
pub open spec fn json_escape(s: Seq<char>) -> Seq<char>
    decreases s.len(),
{
    if s.len() == 0 {
        Seq::empty()
    } else {
        json_escape(s.drop_last()) + json_escape_char(s.last())
    }
}

/// `s` written as a JSON string literal.
pub open spec fn json_string(s: Seq<char>) -> Seq<char> {
    seq!['"'] + json_escape(s) + seq!['"']
}

/// The compact text (`Display`) of a `serde_json::Value` object with the
/// single entry `key: value`, a string: serde_json writes `{`, the key and
/// the value as JSON string literals separated by `:`, and `}`. Its escape
/// table escapes `"`, `\` and the characters below U+0020, nothing else;
/// writing into memory cannot fail.
#[verifier::external_body]
fn json_object_entry(key: &str, value: &str) -> (res: String)
    ensures
        res@ == seq!['{'] + json_string(key@) + seq![':'] + json_string(value@) + seq!['}'],
{
    let mut m = serde_json::Map::new();
    m.insert(key.to_string(), serde_json::Value::String(value.to_string()));
    serde_json::Value::Object(m).to_string()
}

/// What the browser receives for one piece of reply text: the JSON object
/// `{"t":<text>}`, so that leading and trailing spaces survive the event
/// stream.
pub open spec fn token_payload(text: Seq<char>) -> Seq<char> {
    seq!['{'] + json_string(seq!['t']) + seq![':'] + json_string(text) + seq!['}']
}

/// An event sent to the browser.
pub enum StreamEvent {
    /// A data event carrying a token payload.
    Token(String),
    /// The `done` event: the reply is complete.
    Done,
    /// The `error` event, with its message.
    Error(String),
}

/// The mathematical value of a [`StreamEvent`].
pub enum EventSpec {
    Token(Seq<char>),
    Done,
    Error(Seq<char>),
}

impl View for StreamEvent {
    type V = EventSpec;

    open spec fn view(&self) -> EventSpec {
        match self {
            StreamEvent::Token(p) => EventSpec::Token(p@),
            StreamEvent::Done => EventSpec::Done,
            StreamEvent::Error(m) => EventSpec::Error(m@),
        }
    }
}

/// The values of a list of events.
pub open spec fn events_view(v: Seq<StreamEvent>) -> Seq<EventSpec> {
    v.map_values(|e: StreamEvent| e@)
}

/// The index of the first `'\n'` of `s`, or its length when it has none.
pub open spec fn first_newline(s: Seq<char>) -> int
    decreases s.len(),
{
    if s.len() == 0 {
        0
    } else if s[0] == '\n' {
        0
    } else {
        1 + first_newline(s.drop_first())
    }
}

/// `first_newline` is the position of the first line break, if any.
pub proof fn lemma_first_newline(s: Seq<char>)
    ensures
        0 <= first_newline(s) <= s.len(),
        first_newline(s) < s.len() ==> s[first_newline(s)] == '\n',
        forall|k: int| 0 <= k < first_newline(s) ==> s[k] != '\n',
    decreases s.len(),
{
    if s.len() > 0 && s[0] != '\n' {
        lemma_first_newline(s.drop_first());
        assert forall|k: int| 0 <= k < first_newline(s) implies s[k] != '\n' by {
            if k > 0 {
                assert(s[k] == s.drop_first()[k - 1]);
            }
        }
    }
}

/// The events that the fields of a reply line give, and whether the line
/// ends the reply: a token for a non-empty `message.content`, then `Done`
/// when `done` is true.
pub open spec fn fields_events(fields: (Option<Seq<char>>, Option<bool>)) -> (Seq<EventSpec>, bool) {
    (
        match fields.0 {
            Some(c) => if c.len() > 0 {
                seq![EventSpec::Token(token_payload(c))]
            } else {
                Seq::empty()
            },
            None => Seq::empty(),
        } + if fields.1 == Some(true) {
            seq![EventSpec::Done]
        } else {
            Seq::empty()
        },
        fields.1 == Some(true),
    )
}

/// The events of one trimmed reply line, and whether it ends the reply. A
/// blank line, or one that is not JSON, gives nothing.
pub open spec fn line_events(t: Seq<char>) -> (Seq<EventSpec>, bool) {
    if t.len() == 0 {
        (Seq::empty(), false)
    } else {
        match reply_line_fields(t) {
            None => (Seq::empty(), false),
            Some(fields) => fields_events(fields),
        }
    }
}

/// Reads the complete lines at the front of `s`: the events they give, the
/// text left over, and whether a line ended the reply (reading stops there).
pub open spec fn drain_lines(s: Seq<char>) -> (Seq<EventSpec>, Seq<char>, bool)
    decreases s.len(),
{
    let k = first_newline(s);
    if k >= s.len() {
        (Seq::empty(), s, false)
    } else {
        proof {
            lemma_first_newline(s);
        }
        let here = line_events(trim(s.take(k + 1)));
        if here.1 {
            (here.0, s.skip(k + 1), true)
        } else {
            let r = drain_lines(s.skip(k + 1));
            (here.0 + r.0, r.1, r.2)
        }
    }
}

/// The relay state: the text received but not yet read as a complete line,
/// and whether the reply has ended.
pub struct ReplyStream {
    buffer: Vec<char>,
    finished: bool,
}

/// The mathematical value of a [`ReplyStream`].
pub struct StreamSpec {
    pub buffer: Seq<char>,
    pub finished: bool,
}

impl View for ReplyStream {
    type V = StreamSpec;

    closed spec fn view(&self) -> StreamSpec {
        StreamSpec { buffer: self.buffer@, finished: self.finished }
    }
}

/// The state of a relay that has received nothing yet.
pub open spec fn fresh_relay() -> StreamSpec {
    StreamSpec { buffer: Seq::empty(), finished: false }
}

/// One piece of reply text taken by the relay in state `st`: the events it
/// gives and the next state. Once the reply has ended, nothing happens;
/// otherwise the complete lines of the held-back text and `text` are read.
pub open spec fn relay_step(st: StreamSpec, text: Seq<char>) -> (Seq<EventSpec>, StreamSpec) {
    if st.finished {
        (Seq::empty(), st)
    } else {
        let d = drain_lines(st.buffer + text);
        (d.0, StreamSpec { buffer: d.1, finished: d.2 })
    }
}

/// The end of the reply body in state `st`, after a read failure with the
/// given detail or (`None`) at its normal end: the events sent and the next
/// state. Once the reply has ended, nothing happens.
pub open spec fn relay_end(st: StreamSpec, failure: Option<Seq<char>>) -> (Seq<EventSpec>, StreamSpec) {
    if st.finished {
        (Seq::empty(), st)
    } else {
        (
            match failure {
                Some(d) => seq![EventSpec::Error("Stream-Fehler: "@ + d), EventSpec::Done],
                None => seq![EventSpec::Done],
            },
            StreamSpec { buffer: st.buffer, finished: true },
        )
    }
}

/// The index of the first `'\n'` of `s`, or its length.
fn find_newline(s: &Vec<char>) -> (res: usize)
    ensures
        res == first_newline(s@),
{
    proof {
        lemma_first_newline(s@);
    }
    let n = s.len();
    for i in 0..n
        invariant
            n == s@.len(),
            0 <= first_newline(s@) <= n,
            first_newline(s@) < n ==> s@[first_newline(s@)] == '\n',
            forall|k: int| 0 <= k < first_newline(s@) ==> s@[k] != '\n',
            forall|k: int| 0 <= k < i ==> s@[k] != '\n',
    {
        if s[i] == '\n' {
            return i;
        }
    }
    n
}

/// The token payload for `text`.
fn make_token(text: &String) -> (res: StreamEvent)
    ensures
        res@ == EventSpec::Token(token_payload(text@)),
{
    let key = "t";
    proof {
        reveal_strlit("t");
    }
    assert(key@ =~= seq!['t']);
    StreamEvent::Token(json_object_entry(key, text.as_str()))
}

/// The events that the fields of one reply line give, and whether the line
/// ends the reply: a token event for a non-empty `message.content`, then the
/// `Done` event when `done` is true.
pub fn reply_events(fields: &ReplyFields) -> (res: (Vec<StreamEvent>, bool))
    ensures
        (events_view(res.0@), res.1) == fields_events(fields@),
        match fields@.0 {
            Some(c) => c.len() > 0 ==> res.0@.len() > 0 && res.0@[0]@ == EventSpec::Token(
                seq!['{', '"', 't', '"', ':'] + json_string(c) + seq!['}'],
            ),
            None => true,
        },
{
    proof {
        lemma_fields_token(fields@);
    }
    let mut evs: Vec<StreamEvent> = Vec::new();
    let stop = match fields.done {
        Some(b) => b,
        None => false,
    };
    match &fields.content {
        Some(c) => {
            if !c.as_str().is_empty() {
                let e = make_token(c);
                evs.push(e);
                assert(events_view(evs@) =~= seq![e@]);
            } else {
                assert(events_view(evs@) =~= Seq::<EventSpec>::empty());
            }
        },
        None => {
            assert(events_view(evs@) =~= Seq::<EventSpec>::empty());
        },
    }
    let ghost before = events_view(evs@);
    if stop {
        evs.push(StreamEvent::Done);
        assert(events_view(evs@) =~= before + seq![EventSpec::Done]);
    } else {
        assert(events_view(evs@) =~= before + Seq::<EventSpec>::empty());
    }
    (evs, stop)
}

/// The events of one trimmed reply line, and whether it ends the reply.
fn events_of_line(t: &Vec<char>) -> (res: (Vec<StreamEvent>, bool))
    ensures
        (events_view(res.0@), res.1) == line_events(t@),
{
    if t.len() == 0 {
        let evs: Vec<StreamEvent> = Vec::new();
        assert(events_view(evs@) =~= Seq::<EventSpec>::empty());
        return (evs, false);
    }
    let line = string_of(t);
    match read_reply_line(line.as_str()) {
        None => {
            let evs: Vec<StreamEvent> = Vec::new();
            assert(events_view(evs@) =~= Seq::<EventSpec>::empty());
            (evs, false)
        },
        Some(fields) => reply_events(&fields),
    }
}

/// Appends the events of `b` to `a`.
fn append_events(a: &mut Vec<StreamEvent>, b: Vec<StreamEvent>)
    ensures
        events_view(final(a)@) == events_view(old(a)@) + events_view(b@),
{
    let mut b = b;
    let ghost bv = b@;
    let mut rev: Vec<StreamEvent> = Vec::new();
    while b.len() > 0
        invariant
            bv == b@ + rev@.reverse(),
        decreases b.len(),
    {
        let e = b.pop().unwrap();
        let ghost r0 = rev@;
        rev.push(e);
        assert(rev@.reverse() =~= seq![e] + r0.reverse());
    }
    assert(bv =~= rev@.reverse());
    let ghost a0 = a@;
    while rev.len() > 0
        invariant
            events_view(a@) + events_view(rev@.reverse()) == events_view(a0) + events_view(bv),
        decreases rev.len(),
    {
        let ghost r0 = rev@;
        let ghost a1 = a@;
        let e = rev.pop().unwrap();
        a.push(e);
        assert(r0.reverse() =~= seq![e] + rev@.reverse());
        assert(events_view(a@) =~= events_view(a1).push(e@));
        assert(events_view(r0.reverse()) =~= seq![e@] + events_view(rev@.reverse()));
    }
    assert(events_view(rev@.reverse()) =~= Seq::<EventSpec>::empty());
}

impl ReplyStream {
    /// A relay that has received nothing yet.
    pub fn new() -> (res: ReplyStream)
        ensures
            res@ == fresh_relay(),
    {
        let r = ReplyStream { buffer: Vec::new(), finished: false };
        assert(r@.buffer =~= fresh_relay().buffer);
        r
    }

    /// Whether the reply has ended.
    pub fn is_finished(&self) -> (res: bool)
        ensures
            res == self@.finished,
    {
        self.finished
    }

    /// Takes one chunk of the reply body: decodes it (invalid UTF-8 is
    /// replaced) and reads it as [`ReplyStream::feed_text`] does.
    pub fn feed(&mut self, chunk: &[u8]) -> (res: Vec<StreamEvent>)
        ensures
            (events_view(res@), final(self)@) == relay_step(old(self)@, chunk_text(chunk@)),
    {
        let text = decode_lossy(chunk);
        self.feed_text(text.as_str())
    }

    /// Takes a piece of reply text: it is appended to the text held back,
    /// and every complete line is read. A non-empty `message.content` gives
    /// a token event, and `"done": true` gives the `Done` event and ends the
    /// reply; nothing after that line is read. Once the reply has ended,
    /// text gives nothing.
    pub fn feed_text(&mut self, text: &str) -> (res: Vec<StreamEvent>)
        ensures
            (events_view(res@), final(self)@) == relay_step(old(self)@, text@),
    {
        let mut out: Vec<StreamEvent> = Vec::new();
        if self.finished {
            assert(events_view(out@) =~= Seq::<EventSpec>::empty());
            return out;
        }
        extend_str(&mut self.buffer, text);
        let ghost whole = self.buffer@;
        assert(whole == old(self)@.buffer + text@);
        loop
            invariant
                !self.finished,
                !old(self)@.finished,
                whole == old(self)@.buffer + text@,
                drain_lines(whole) == (
                    events_view(out@) + drain_lines(self.buffer@).0,
                    drain_lines(self.buffer@).1,
                    drain_lines(self.buffer@).2,
                ),
            ensures
                events_view(out@) == drain_lines(whole).0,
                self.buffer@ == drain_lines(whole).1,
                self.finished == drain_lines(whole).2,
            decreases self.buffer@.len(),
        {
            let k = find_newline(&self.buffer);
            if k >= self.buffer.len() {
                assert(events_view(out@) + Seq::<EventSpec>::empty() =~= events_view(out@));
                return out;
            }
            proof {
                lemma_first_newline(self.buffer@);
            }
            let line = sub_chars(&self.buffer, 0, k + 1);
            let rest = sub_chars(&self.buffer, k + 1, self.buffer.len());
            assert(line@ == self.buffer@.take(k + 1));
            assert(rest@ == self.buffer@.skip(k + 1));
            let t = trim_chars(&line);
            let (evs, stop) = events_of_line(&t);
            let ghost out0 = events_view(out@);
            let ghost evv = events_view(evs@);
            append_events(&mut out, evs);
            self.buffer = rest;
            if stop {
                self.finished = true;
                assert(events_view(out@) == out0 + evv);
                return out;
            }
            assert(out0 + (evv + drain_lines(rest@).0) =~= (out0 + evv) + drain_lines(rest@).0);
        }
    }

    /// The body could not be read further: an `error` event with
    /// `Stream-Fehler: <detail>`, then `Done`, and the reply has ended.
    pub fn fail(&mut self, detail: &str) -> (res: Vec<StreamEvent>)
        ensures
            (events_view(res@), final(self)@) == relay_end(old(self)@, Some(detail@)),
    {
        let mut out: Vec<StreamEvent> = Vec::new();
        if self.finished {
            assert(events_view(out@) =~= Seq::<EventSpec>::empty());
            return out;
        }
        let mut msg = chars_of("Stream-Fehler: ");
        extend_str(&mut msg, detail);
        let e = StreamEvent::Error(string_of(&msg));
        out.push(e);
        out.push(StreamEvent::Done);
        self.finished = true;
        assert(events_view(out@) =~= seq![e@, EventSpec::Done]);
        out
    }

    /// The body ended: `Done`, unless the reply has already ended.
    pub fn finish(&mut self) -> (res: Vec<StreamEvent>)
        ensures
            (events_view(res@), final(self)@) == relay_end(old(self)@, None),
    {
        let mut out: Vec<StreamEvent> = Vec::new();
        if self.finished {
            assert(events_view(out@) =~= Seq::<EventSpec>::empty());
            return out;
        }
        out.push(StreamEvent::Done);
        self.finished = true;
        assert(events_view(out@) =~= seq![EventSpec::Done]);
        out
    }
}

/// The event sent when the model server cannot be reached:
/// `Ollama nicht erreichbar: <detail>`.
pub fn connection_error(detail: &str) -> (res: StreamEvent)
    ensures
        res@ == EventSpec::Error("Ollama nicht erreichbar: "@ + detail@),
{
    let mut msg = chars_of("Ollama nicht erreichbar: ");
    extend_str(&mut msg, detail);
    StreamEvent::Error(string_of(&msg))
}

/// A line break within `x` is found at the same place in `x + y`.
proof fn lemma_first_newline_prefix(x: Seq<char>, y: Seq<char>)
    requires
        first_newline(x) < x.len(),
    ensures
        first_newline(x + y) == first_newline(x),
    decreases x.len(),
{
    if x[0] != '\n' {
        assert((x + y).drop_first() == x.drop_first() + y);
        lemma_first_newline_prefix(x.drop_first(), y);
    }
}

/// How a reply is cut into chunks does not matter: reading `x` and then,
/// from the text held back, `y`, gives the same events, the same text held
/// back and the same end as reading `x + y` at once (as long as `x` did not
/// already end the reply).
pub proof fn lemma_drain_concat(x: Seq<char>, y: Seq<char>)
    requires
        !drain_lines(x).2,
    ensures
        drain_lines(x + y) == (
            drain_lines(x).0 + drain_lines(drain_lines(x).1 + y).0,
            drain_lines(drain_lines(x).1 + y).1,
            drain_lines(drain_lines(x).1 + y).2,
        ),
    decreases x.len(),
{
    let k = first_newline(x);
    lemma_first_newline(x);
    if k >= x.len() {
        assert(Seq::<EventSpec>::empty() + drain_lines(x + y).0 =~= drain_lines(x + y).0);
    } else {
        lemma_first_newline_prefix(x, y);
        assert((x + y).take(k + 1) == x.take(k + 1));
        assert((x + y).skip(k + 1) == x.skip(k + 1) + y);
        let here = line_events(trim(x.take(k + 1)));
        lemma_drain_concat(x.skip(k + 1), y);
        let r = drain_lines(x.skip(k + 1));
        let d = drain_lines(r.1 + y);
        assert(here.0 + (r.0 + d.0) =~= (here.0 + r.0) + d.0);
    }
}

/// The `Done` event comes exactly when the reply ends, and then as the last
/// event; when the reply has not ended, the text held back holds no line
/// break.
pub proof fn lemma_drain_done_last(s: Seq<char>)
    ensures
        drain_lines(s).2 <==> (drain_lines(s).0.len() > 0 && drain_lines(s).0.last() == EventSpec::Done),
        forall|i: int| 0 <= i < drain_lines(s).0.len() - 1 ==> drain_lines(s).0[i] != EventSpec::Done,
        !drain_lines(s).2 ==> !drain_lines(s).1.contains('\n'),
    decreases s.len(),
{
    let k = first_newline(s);
    lemma_first_newline(s);
    if k >= s.len() {
        if s.contains('\n') {
            let j = choose|j: int| 0 <= j < s.len() && s[j] == '\n';
            assert(false);
        }
    } else {
        let t = trim(s.take(k + 1));
        let here = line_events(t);
        lemma_drain_done_last(s.skip(k + 1));
        let r = drain_lines(s.skip(k + 1));
        assert(forall|i: int| 0 <= i < here.0.len() - 1 ==> here.0[i] != EventSpec::Done);
        if !here.1 {
            assert(forall|i: int| 0 <= i < here.0.len() ==> here.0[i] != EventSpec::Done);
            let all = here.0 + r.0;
            assert forall|i: int| 0 <= i < all.len() - 1 implies all[i] != EventSpec::Done by {
                if i >= here.0.len() {
                    assert(all[i] == r.0[i - here.0.len()]);
                }
            }
            if r.0.len() > 0 {
                assert(all.last() == r.0.last());
            } else {
                assert(all =~= here.0);
                if all.len() > 0 {
                    assert(all.last() == here.0[here.0.len() - 1]);
                }
            }
        }
    }
}

/// The relay, starting in state `st`, taking the pieces of text `texts` one
/// after the other: all the events sent and the state it ends in.
pub open spec fn relay_all(st: StreamSpec, texts: Seq<Seq<char>>) -> (Seq<EventSpec>, StreamSpec)
    decreases texts.len(),
{
    if texts.len() == 0 {
        (Seq::empty(), st)
    } else {
        let a = relay_step(st, texts[0]);
        let b = relay_all(a.1, texts.drop_first());
        (a.0 + b.0, b.1)
    }
}

/// Every event sent for a whole reply body: a fresh relay takes the chunks
/// one after the other, then the body ends, after a read failure with the
/// given detail or (`None`) normally.
pub open spec fn whole_reply(chunks: Seq<Seq<u8>>, failure: Option<Seq<char>>) -> Seq<EventSpec> {
    let a = relay_all(fresh_relay(), chunks.map_values(|c: Seq<u8>| chunk_text(c)));
    a.0 + relay_end(a.1, failure).0
}

/// Reading `x` ended the reply: whatever follows `x` is not read.
pub proof fn lemma_drain_concat_done(x: Seq<char>, y: Seq<char>)
    requires
        drain_lines(x).2,
    ensures
        drain_lines(x + y).0 == drain_lines(x).0,
        drain_lines(x + y).2,
    decreases x.len(),
{
    let k = first_newline(x);
    lemma_first_newline(x);
    if k < x.len() {
        lemma_first_newline_prefix(x, y);
        assert((x + y).take(k + 1) == x.take(k + 1));
        assert((x + y).skip(k + 1) == x.skip(k + 1) + y);
        let here = line_events(trim(x.take(k + 1)));
        if !here.1 {
            lemma_drain_concat_done(x.skip(k + 1), y);
        }
    }
}

/// A relay that has ended sends nothing more and stays as it is.
proof fn lemma_relay_all_finished(st: StreamSpec, texts: Seq<Seq<char>>)
    requires
        st.finished,
    ensures
        relay_all(st, texts) == (Seq::<EventSpec>::empty(), st),
    decreases texts.len(),
{
    if texts.len() > 0 {
        lemma_relay_all_finished(st, texts.drop_first());
        assert(Seq::<EventSpec>::empty() + Seq::<EventSpec>::empty() =~= Seq::<EventSpec>::empty());
    }
}

/// From a state the relay can reach (one that holds back no line break
/// while open), taking pieces of text one after the other sends the events
/// that reading them all at once sends, and ends the reply exactly when that
/// does (holding back the same text when it does not).
proof fn lemma_relay_all_flatten(st: StreamSpec, texts: Seq<Seq<char>>)
    requires
        !st.finished,
        !st.buffer.contains('\n'),
    ensures
        relay_all(st, texts).0 == drain_lines(st.buffer + texts.flatten()).0,
        relay_all(st, texts).1.finished == drain_lines(st.buffer + texts.flatten()).2,
        !relay_all(st, texts).1.finished ==> relay_all(st, texts).1.buffer == drain_lines(
            st.buffer + texts.flatten(),
        ).1,
    decreases texts.len(),
{
    if texts.len() == 0 {
        assert(st.buffer + texts.flatten() =~= st.buffer);
        lemma_drain_empty_when_open(st.buffer);
    } else {
        let x = st.buffer + texts[0];
        let rest = texts.drop_first().flatten();
        assert(st.buffer + texts.flatten() =~= x + rest);
        let a = relay_step(st, texts[0]);
        if drain_lines(x).2 {
            lemma_drain_concat_done(x, rest);
            lemma_relay_all_finished(a.1, texts.drop_first());
            assert(a.0 + Seq::<EventSpec>::empty() =~= a.0);
        } else {
            lemma_drain_concat(x, rest);
            lemma_drain_done_last(x);
            lemma_relay_all_flatten(a.1, texts.drop_first());
        }
    }
}

/// How the reply text is cut into pieces does not matter: a fresh relay
/// taking the pieces one after the other sends the events that reading the
/// whole text at once sends, and ends the reply exactly when that does.
pub proof fn lemma_relay_text_chunking(texts: Seq<Seq<char>>)
    ensures
        relay_all(fresh_relay(), texts).0 == drain_lines(texts.flatten()).0,
        relay_all(fresh_relay(), texts).1.finished == drain_lines(texts.flatten()).2,
{
    let st = fresh_relay();
    assert(!st.buffer.contains('\n'));
    lemma_relay_all_flatten(st, texts);
    assert(st.buffer + texts.flatten() =~= texts.flatten());
}

/// Text without a line break gives no events and is held back whole.
proof fn lemma_drain_empty_when_open(s: Seq<char>)
    requires
        !s.contains('\n'),
    ensures
        drain_lines(s) == (Seq::<EventSpec>::empty(), s, false),
{
    lemma_first_newline(s);
    if first_newline(s) < s.len() {
        assert(s[first_newline(s)] == '\n');
        assert(false);
    }
}

/// A whole reply ends with exactly one `Done` event: it is the last event
/// sent, however the body was cut into chunks and however it ended.
pub proof fn lemma_whole_reply_done_last(chunks: Seq<Seq<u8>>, failure: Option<Seq<char>>)
    ensures
        whole_reply(chunks, failure).len() > 0,
        whole_reply(chunks, failure).last() == EventSpec::Done,
        forall|i: int|
            0 <= i < whole_reply(chunks, failure).len() - 1 ==> whole_reply(chunks, failure)[i]
                != EventSpec::Done,
{
    let texts = chunks.map_values(|c: Seq<u8>| chunk_text(c));
    let st = fresh_relay();
    assert(!st.buffer.contains('\n'));
    lemma_relay_all_flatten(st, texts);
    assert(st.buffer + texts.flatten() =~= texts.flatten());
    lemma_drain_done_last(texts.flatten());
    let a = relay_all(st, texts);
    let end = relay_end(a.1, failure);
    let all = a.0 + end.0;
    assert(all == whole_reply(chunks, failure));
    if a.1.finished {
        assert(all =~= a.0);
    } else {
        assert(forall|i: int| 0 <= i < a.0.len() ==> a.0[i] != EventSpec::Done) by {
            if a.0.len() > 0 {
                assert(a.0.last() == a.0[a.0.len() - 1]);
            }
        }
        assert(end.0.last() == EventSpec::Done);
        assert(forall|i: int| 0 <= i < end.0.len() - 1 ==> end.0[i] != EventSpec::Done);
        assert(all.last() == end.0.last());
        assert forall|i: int| 0 <= i < all.len() - 1 implies all[i] != EventSpec::Done by {
            if i >= a.0.len() {
                assert(all[i] == end.0[i - a.0.len()]);
            } else {
                assert(all[i] == a.0[i]);
            }
        }
    }
}

/// Decoding two valid UTF-8 byte strings one after the other gives the
/// text of their concatenation.
pub proof fn lemma_decode_concat(a: Seq<u8>, b: Seq<u8>)
    requires
        vstd::utf8::valid_utf8(a),
        vstd::utf8::valid_utf8(b),
    ensures
        vstd::utf8::valid_utf8(a + b),
        vstd::utf8::decode_utf8(a + b) == vstd::utf8::decode_utf8(a) + vstd::utf8::decode_utf8(b),
    decreases a.len(),
{
    vstd::utf8::valid_utf8_concat(a, b);
    if a.len() == 0 {
        assert(a + b =~= b);
        assert(vstd::utf8::decode_utf8(a) =~= Seq::<char>::empty());
        assert(Seq::<char>::empty() + vstd::utf8::decode_utf8(b) =~= vstd::utf8::decode_utf8(b));
    } else {
        let n = vstd::utf8::length_of_first_scalar(a);
        assert(1 <= n <= a.len());
        let rest = vstd::utf8::pop_first_scalar(a);
        assert(rest.len() == a.len() - n);
        assert((a + b)[0] == a[0]);
        assert(n >= 2 ==> (a + b)[1] == a[1]);
        assert(n >= 3 ==> (a + b)[2] == a[2]);
        assert(n >= 4 ==> (a + b)[3] == a[3]);
        assert(vstd::utf8::length_of_first_scalar(a + b) == n);
        assert(vstd::utf8::decode_first_scalar(a + b) == vstd::utf8::decode_first_scalar(a));
        assert(vstd::utf8::pop_first_scalar(a + b) =~= rest + b);
        lemma_decode_concat(rest, b);
        assert(vstd::utf8::decode_utf8(a + b) == seq![vstd::utf8::decode_first_scalar(a) as char]
            + vstd::utf8::decode_utf8(rest + b));
        assert(vstd::utf8::decode_utf8(a) == seq![vstd::utf8::decode_first_scalar(a) as char]
            + vstd::utf8::decode_utf8(rest));
        assert(seq![vstd::utf8::decode_first_scalar(a) as char] + (vstd::utf8::decode_utf8(rest)
            + vstd::utf8::decode_utf8(b)) =~= (seq![vstd::utf8::decode_first_scalar(a) as char]
            + vstd::utf8::decode_utf8(rest)) + vstd::utf8::decode_utf8(b));
    }
}

/// The texts of valid UTF-8 chunks, put together, are the text of the
/// chunks' bytes put together.
proof fn lemma_chunk_texts_flatten(chunks: Seq<Seq<u8>>)
    requires
        forall|i: int| 0 <= i < chunks.len() ==> vstd::utf8::valid_utf8(#[trigger] chunks[i]),
    ensures
        vstd::utf8::valid_utf8(chunks.flatten()),
        chunks.map_values(|c: Seq<u8>| chunk_text(c)).flatten() == vstd::utf8::decode_utf8(chunks.flatten()),
    decreases chunks.len(),
{
    let texts = chunks.map_values(|c: Seq<u8>| chunk_text(c));
    if chunks.len() == 0 {
        assert(vstd::utf8::decode_utf8(Seq::<u8>::empty()) =~= Seq::<char>::empty());
        assert(texts.flatten() =~= Seq::<char>::empty());
    } else {
        let tail = chunks.drop_first();
        assert forall|i: int| 0 <= i < tail.len() implies vstd::utf8::valid_utf8(#[trigger] tail[i]) by {
            assert(tail[i] == chunks[i + 1]);
        }
        lemma_chunk_texts_flatten(tail);
        assert(vstd::utf8::valid_utf8(chunks[0]));
        lemma_decode_concat(chunks[0], tail.flatten());
        assert(texts.drop_first() =~= tail.map_values(|c: Seq<u8>| chunk_text(c)));
        assert(texts[0] == vstd::utf8::decode_utf8(chunks[0]));
    }
}

/// How a valid UTF-8 body is cut into chunks does not matter: two ways of
/// cutting the same bytes into pieces that are each valid UTF-8 (cuts at
/// character boundaries) send the same events.
pub proof fn lemma_whole_reply_chunking(c1: Seq<Seq<u8>>, c2: Seq<Seq<u8>>, failure: Option<Seq<char>>)
    requires
        forall|i: int| 0 <= i < c1.len() ==> vstd::utf8::valid_utf8(#[trigger] c1[i]),
        forall|i: int| 0 <= i < c2.len() ==> vstd::utf8::valid_utf8(#[trigger] c2[i]),
        c1.flatten() == c2.flatten(),
    ensures
        whole_reply(c1, failure) == whole_reply(c2, failure),
{
    let t1 = c1.map_values(|c: Seq<u8>| chunk_text(c));
    let t2 = c2.map_values(|c: Seq<u8>| chunk_text(c));
    lemma_chunk_texts_flatten(c1);
    lemma_chunk_texts_flatten(c2);
    let st = fresh_relay();
    assert(!st.buffer.contains('\n'));
    lemma_relay_all_flatten(st, t1);
    lemma_relay_all_flatten(st, t2);
    assert(st.buffer + t1.flatten() =~= t1.flatten());
    assert(st.buffer + t2.flatten() =~= t2.flatten());
    let a1 = relay_all(st, t1);
    let a2 = relay_all(st, t2);
    assert(a1.0 == a2.0);
    assert(a1.1.finished == a2.1.finished);
    assert(relay_end(a1.1, failure).0 == relay_end(a2.1, failure).0);
}

/// A reply line whose `message.content` is a non-empty string `c` (white
/// space included) sends the token `{"t":c}` first, with `c` written as a
/// JSON string; a line without content, or with empty content, sends no
/// token at all. The line ends the reply exactly when `done` is `true`.
pub proof fn lemma_fields_token(fields: (Option<Seq<char>>, Option<bool>))
    ensures
        match fields.0 {
            Some(c) => c.len() > 0 ==> fields_events(fields).0.len() > 0 && fields_events(fields).0[0]
                == EventSpec::Token(seq!['{', '"', 't', '"', ':'] + json_string(c) + seq!['}']),
            None => true,
        },
        (fields.0 is None || fields.0 == Some(Seq::<char>::empty())) ==> forall|i: int|
            0 <= i < fields_events(fields).0.len() ==> !(#[trigger] fields_events(fields).0[i] is Token),
        fields_events(fields).1 <==> fields.1 == Some(true),
{
    if let Some(c) = fields.0 {
        if c.len() > 0 {
            assert(json_string(seq!['t']) =~= seq!['"', 't', '"']) by {
                reveal_with_fuel(json_escape, 2);
                assert(json_escape(seq!['t']).len() == 1);
                assert(seq!['t'].drop_last() =~= Seq::<char>::empty());
                assert(json_escape(seq!['t']) =~= seq!['t']);
            }
            assert(token_payload(c) =~= seq!['{', '"', 't', '"', ':'] + json_string(c) + seq!['}']);
        }
    }
}

/// A reply line (as the server writes it: no white space around it) whose
/// `message.content` is a non-empty string `c` sends the token `{"t":c}` as
/// the first event of the text it starts, whatever follows it.
pub proof fn lemma_line_token(line: Seq<char>, rest: Seq<char>, fields: (Option<Seq<char>>, Option<bool>))
    requires
        line.len() > 0,
        !line.contains('\n'),
        !is_ws(line[0]),
        !is_ws(line.last()),
        reply_line_fields(line) == Some(fields),
    ensures
        match fields.0 {
            Some(c) => c.len() > 0 ==> drain_lines(line.push('\n') + rest).0.len() > 0 && drain_lines(
                line.push('\n') + rest,
            ).0[0] == EventSpec::Token(seq!['{', '"', 't', '"', ':'] + json_string(c) + seq!['}']),
            None => true,
        },
{
    let x = line.push('\n');
    let s = x + rest;
    lemma_first_newline(x);
    assert(first_newline(x) == line.len()) by {
        let f = first_newline(x);
        if f < line.len() {
            assert(x[f] == line[f]);
            assert(line[f] == '\n');
            assert(line.contains('\n'));
        }
        assert(x[line.len() as int] == '\n');
    }
    lemma_first_newline_prefix(x, rest);
    let k = line.len() as int;
    assert(s.take(k + 1) =~= x);
    assert(trim_start(x) == x);
    assert(x.drop_last() =~= line);
    assert(trim_end(x) == trim_end(line));
    assert(trim_end(line) == line);
    assert(trim(x) == line);
    lemma_fields_token(fields);
    let here = line_events(line);
    assert(here == fields_events(fields));
    if let Some(c) = fields.0 {
        if c.len() > 0 && !here.1 {
            let r = drain_lines(s.skip(k + 1));
            assert(here.0.len() > 0);
            assert((here.0 + r.0)[0] == here.0[0]);
        }
    }
}

} // verus!
