//! The Ollama protocol: server addresses, error classification and the
//! decoding of a streamed chat reply. The HTTP exchange itself happens
//! outside this crate; it hands in status codes, bodies and bytes.

use vstd::prelude::*;
use vstd::utf8::{decode_utf8, valid_utf8};
use crate::text::{
    chars_of, contains, contains_exec, push_all, starts_with, starts_with_exec, string_of, trim,
    trim_exec, all_digits, digits_value, is_digit, parse_u16_spec,
};

verus! {

/// One message of a chat conversation.
#[derive(Debug, Clone, PartialEq)]
pub struct ChatMessage {
    pub role: String,
    pub content: String,
}

/// The mathematical value of a [`ChatMessage`].
#[verifier::ext_equal]
pub struct ChatMessageView {
    pub role: Seq<char>,
    pub content: Seq<char>,
}

impl View for ChatMessage {
    type V = ChatMessageView;

    open spec fn view(&self) -> ChatMessageView {
        ChatMessageView { role: self.role@, content: self.content@ }
    }
}

/// The views of a sequence of messages.
pub open spec fn message_views(v: Seq<ChatMessage>) -> Seq<ChatMessageView> {
    v.map_values(|m: ChatMessage| m@)
}

impl ChatMessage {
    pub fn new(role: &str, content: &str) -> (m: Self)
        ensures
            m.role@ == role@,
            m.content@ == content@,
    {
        ChatMessage { role: role.to_owned(), content: content.to_owned() }
    }
}

/// Why a request to Ollama failed.
#[derive(Debug, Clone)]
pub enum OllamaError {
    /// The server at this address could not be reached.
    Unreachable(String),
    /// The named model is not installed on the server.
    ModelMissing(String),
    /// Any other failure, with its description.
    Other(String),
}

/// The message shown to the user for an error.
pub open spec fn error_message(e: OllamaError) -> Seq<char> {
    match e {
        OllamaError::Unreachable(url) => "Can't reach Ollama at "@ + url@
            + ". Start it with: systemctl enable --now ollama"@,
        OllamaError::ModelMissing(model) => "Model '"@ + model@
            + "' is not installed. Run: ollama pull "@ + model@,
        OllamaError::Other(err) => "Ollama error: "@ + err@,
    }
}

impl OllamaError {
    /// The message shown to the user.
    pub fn message(&self) -> (s: String)
        ensures
            s@ == error_message(*self),
    {
        let mut out: Vec<char> = Vec::new();
        match self {
            OllamaError::Unreachable(url) => {
                push_all(&mut out, &chars_of("Can't reach Ollama at "));
                push_all(&mut out, &chars_of(url.as_str()));
                push_all(&mut out, &chars_of(". Start it with: systemctl enable --now ollama"));
            },
            OllamaError::ModelMissing(model) => {
                push_all(&mut out, &chars_of("Model '"));
                push_all(&mut out, &chars_of(model.as_str()));
                push_all(&mut out, &chars_of("' is not installed. Run: ollama pull "));
                push_all(&mut out, &chars_of(model.as_str()));
            },
            OllamaError::Other(err) => {
                push_all(&mut out, &chars_of("Ollama error: "));
                push_all(&mut out, &chars_of(err.as_str()));
            },
        }
        string_of(&out)
    }
}

/// The decimal digit `d`.
pub open spec fn digit(d: nat) -> char {
    if d == 0 {
        '0'
    } else if d == 1 {
        '1'
    } else if d == 2 {
        '2'
    } else if d == 3 {
        '3'
    } else if d == 4 {
        '4'
    } else if d == 5 {
        '5'
    } else if d == 6 {
        '6'
    } else if d == 7 {
        '7'
    } else if d == 8 {
        '8'
    } else {
        '9'
    }
}

/// The decimal notation of `n`, without leading zeros.
pub open spec fn decimal(n: nat) -> Seq<char>
    decreases n,
{
    if n < 10 {
        seq![digit(n)]
    } else {
        decimal(n / 10).push(digit(n % 10))
    }
}

fn digit_exec(d: u64) -> (c: char)
    requires
        d < 10,
    ensures
        c == digit(d as nat),
{
    if d == 0 {
        '0'
    } else if d == 1 {
        '1'
    } else if d == 2 {
        '2'
    } else if d == 3 {
        '3'
    } else if d == 4 {
        '4'
    } else if d == 5 {
        '5'
    } else if d == 6 {
        '6'
    } else if d == 7 {
        '7'
    } else if d == 8 {
        '8'
    } else {
        '9'
    }
}

/// The decimal notation of `n`.
pub fn decimal_exec(n: u64) -> (v: Vec<char>)
    ensures
        v@ == decimal(n as nat),
    decreases n,
{
    if n < 10 {
        let mut v: Vec<char> = Vec::new();
        v.push(digit_exec(n));
        assert(v@ =~= seq![digit(n as nat)]);
        v
    } else {
        let mut v = decimal_exec(n / 10);
        v.push(digit_exec(n % 10));
        v
    }
}

/// `s` without trailing slashes.
pub open spec fn trim_end_slashes(s: Seq<char>) -> Seq<char>
    decreases s.len(),
{
    if s.len() > 0 && s.last() == '/' {
        trim_end_slashes(s.drop_last())
    } else {
        s
    }
}

/// The base address of the server at `host` and `port`: `http://` is put
/// in front of a host that names no scheme.
pub open spec fn base_url(host: Seq<char>, port: u16) -> Seq<char> {
    let h = trim_end_slashes(host);
    if starts_with(h, "http://"@) || starts_with(h, "https://"@) {
        h + ":"@ + decimal(port as nat)
    } else {
        "http://"@ + h + ":"@ + decimal(port as nat)
    }
}

/// Whether an HTTP status code is a success (2xx).
pub open spec fn is_success_spec(status: u16) -> bool {
    200 <= status <= 299
}

/// Whether an HTTP status code is a success (2xx).
pub fn is_success(status: u16) -> (b: bool)
    ensures
        b == is_success_spec(status),
{
    200 <= status && status <= 299
}

/// The error for a request answered with a status that is not a success:
/// a 404 whose detail says "not found" is a missing model, anything else
/// is reported with its detail. The detail is the `error` field of a JSON
/// error body where it has one, else the body itself.
pub fn status_error(status: u16, parsed: Option<String>, body: String, model: &str) -> (e: OllamaError)
    ensures
        ({
            let detail = match parsed {
                Some(p) => p@,
                None => body@,
            };
            if status == 404 && contains(detail, "not found"@) {
                (e matches OllamaError::ModelMissing(m) && m@ == model@)
            } else {
                (e matches OllamaError::Other(d) && d@ == detail)
            }
        }),
{
    let detail = match parsed {
        Some(p) => p,
        None => body,
    };
    let needle = chars_of("not found");
    if status == 404 && contains_exec(&chars_of(detail.as_str()), &needle) {
        OllamaError::ModelMissing(model.to_owned())
    } else {
        OllamaError::Other(detail)
    }
}

/// A client of one Ollama server.
#[derive(Debug, Clone)]
pub struct OllamaClient {
    base: String,
}

impl OllamaClient {
    /// The server's base address.
    pub closed spec fn base_spec(&self) -> Seq<char> {
        self.base@
    }

    pub fn new(host: &str, port: u16) -> (c: Self)
        ensures
            c.base_spec() == base_url(host@, port),
    {
        let h0 = chars_of(host);
        let mut n: usize = h0.len();
        assert(h0@.subrange(0, n as int) =~= h0@);
        while n > 0 && h0[n - 1] == '/'
            invariant
                n <= h0@.len(),
                trim_end_slashes(h0@) == trim_end_slashes(h0@.subrange(0, n as int)),
            decreases n,
        {
            assert(h0@.subrange(0, n as int).drop_last() =~= h0@.subrange(0, n - 1));
            n = n - 1;
        }
        let h = crate::text::subvec(&h0, 0, n);
        let mut out: Vec<char> = Vec::new();
        if !(starts_with_exec(&h, &chars_of("http://")) || starts_with_exec(
            &h,
            &chars_of("https://"),
        )) {
            push_all(&mut out, &chars_of("http://"));
        }
        push_all(&mut out, &h);
        push_all(&mut out, &chars_of(":"));
        push_all(&mut out, &decimal_exec(port as u64));
        OllamaClient { base: string_of(&out) }
    }

    /// The server's base address.
    pub fn base(&self) -> (s: &str)
        ensures
            s@ == self.base_spec(),
    {
        self.base.as_str()
    }

    fn endpoint(&self, path: &str) -> (s: String)
        ensures
            s@ == self.base_spec() + path@,
    {
        let mut out = chars_of(self.base.as_str());
        push_all(&mut out, &chars_of(path));
        string_of(&out)
    }

    /// Address of the streaming chat endpoint.
    pub fn chat_url(&self) -> (s: String)
        ensures
            s@ == self.base_spec() + "/api/chat"@,
    {
        self.endpoint("/api/chat")
    }

    /// Address of the batch embedding endpoint.
    pub fn embed_url(&self) -> (s: String)
        ensures
            s@ == self.base_spec() + "/api/embed"@,
    {
        self.endpoint("/api/embed")
    }

    /// Address of the version endpoint used as a reachability probe.
    pub fn version_url(&self) -> (s: String)
        ensures
            s@ == self.base_spec() + "/api/version"@,
    {
        self.endpoint("/api/version")
    }

    /// The error for a request that could not be sent: a failed connection
    /// or a timeout means the server is unreachable; anything else is
    /// reported with its description.
    pub fn send_error(&self, connect_or_timeout: bool, detail: String) -> (e: OllamaError)
        ensures
            connect_or_timeout ==> (e matches OllamaError::Unreachable(u) && u@ == self.base_spec()),
            !connect_or_timeout ==> (e matches OllamaError::Other(d) && d == detail),
    {
        if connect_or_timeout {
            OllamaError::Unreachable(self.base.clone())
        } else {
            OllamaError::Other(detail)
        }
    }
}


/// The bytes of a sequence of lines, one after the other.
pub open spec fn concat_lines(lines: Seq<Seq<u8>>) -> Seq<u8>
    decreases lines.len(),
{
    if lines.len() == 0 {
        Seq::empty()
    } else {
        concat_lines(lines.drop_last()) + lines.last()
    }
}

/// The views of a sequence of byte vectors.
pub open spec fn byte_views(v: Seq<Vec<u8>>) -> Seq<Seq<u8>> {
    v.map_values(|x: Vec<u8>| x@)
}

/// A complete line: it ends with its only `'\n'`.
pub open spec fn is_complete_line(l: Seq<u8>) -> bool {
    l.len() > 0 && l.last() == 10u8 && !l.drop_last().contains(10u8)
}

/// Bytes of a streamed reply that do not yet end in a line break.
pub struct LineBuffer {
    buf: Vec<u8>,
}

impl LineBuffer {
    /// The bytes held back: received, but not yet followed by `'\n'`.
    pub closed spec fn pending(&self) -> Seq<u8> {
        self.buf@
    }

    #[verifier::type_invariant]
    spec fn holds_no_line_break(&self) -> bool {
        !self.buf@.contains(10u8)
    }

    pub fn new() -> (b: Self)
        ensures
            b.pending() == Seq::<u8>::empty(),
    {
        LineBuffer { buf: Vec::new() }
    }

    /// Adds received bytes and takes out every line they complete, each
    /// with its `'\n'`; what follows the last line break stays held back.
    pub fn feed(&mut self, bytes: &[u8]) -> (lines: Vec<Vec<u8>>)
        ensures
            concat_lines(byte_views(lines@)) + final(self).pending() == old(self).pending()
                + bytes@,
            forall|i: int| 0 <= i < lines@.len() ==> is_complete_line(#[trigger] lines@[i]@),
            !final(self).pending().contains(10u8),
            byte_views(lines@) == split_lines(old(self).pending() + bytes@).0,
            final(self).pending() == split_lines(old(self).pending() + bytes@).1,
    {
        proof {
            use_type_invariant(&*self);
        }
        let ghost all = self.buf@ + bytes@;
        let mut lines: Vec<Vec<u8>> = Vec::new();
        let mut cur: Vec<u8> = Vec::new();
        let mut i: usize = 0;
        while i < self.buf.len()
            invariant
                i <= self.buf@.len(),
                cur@ == self.buf@.take(i as int),
                !self.buf@.contains(10u8),
            decreases self.buf@.len() - i,
        {
            cur.push(self.buf[i]);
            i = i + 1;
            assert(cur@ =~= self.buf@.take(i as int));
        }
        assert(self.buf@.take(i as int) =~= self.buf@);
        let mut j: usize = 0;
        while j < bytes.len()
            invariant
                j <= bytes@.len(),
                all == old(self).pending() + bytes@,
                concat_lines(byte_views(lines@)) + cur@ == all.take(old(self).pending().len() + j),
                forall|k: int| 0 <= k < lines@.len() ==> is_complete_line(#[trigger] lines@[k]@),
                !cur@.contains(10u8),
            decreases bytes@.len() - j,
        {
            let b = bytes[j];
            let ghost old_lines = lines@;
            let ghost old_cur = cur@;
            cur.push(b);
            assert(all.take(old(self).pending().len() + j + 1) =~= all.take(
                old(self).pending().len() + j,
            ).push(b));
            if b == 10u8 {
                assert(cur@.drop_last() =~= old_cur);
                lines.push(cur);
                cur = Vec::new();
                assert(byte_views(lines@).drop_last() =~= byte_views(old_lines));
                assert(concat_lines(byte_views(lines@)) =~= concat_lines(byte_views(old_lines))
                    + old_cur.push(b));
            } else {
                assert(!cur@.contains(10u8)) by {
                    if cur@.contains(10u8) {
                        let k = choose|k: int| 0 <= k < cur@.len() && cur@[k] == 10u8;
                        if k < old_cur.len() {
                            assert(old_cur[k] == 10u8);
                        }
                    }
                }
            }
            j = j + 1;
        }
        assert(all.take(old(self).pending().len() + j) =~= all);
        proof {
            lemma_split_lines_valid(all);
            assert forall|k: int| 0 <= k < byte_views(lines@).len() implies is_complete_line(
                #[trigger] byte_views(lines@)[k],
            ) by {
                assert(byte_views(lines@)[k] == lines@[k]@);
            }
            law_line_split_unique(
                byte_views(lines@),
                cur@,
                split_lines(all).0,
                split_lines(all).1,
            );
        }
        self.buf = cur;
        lines
    }
}

/// What `String::from_utf8_lossy` makes of a sequence of bytes.
pub uninterp spec fn utf8_lossy(bytes: Seq<u8>) -> Seq<char>;

/// `String::from_utf8_lossy`: the text of the bytes, each invalid sequence
/// replaced by U+FFFD. For valid UTF-8 that is the decoded text; what it
/// is for invalid input is named and not stated.
#[verifier::external_body]
fn decode_lossy(bytes: &Vec<u8>) -> (s: String)
    ensures
        s@ == utf8_lossy(bytes@),
        valid_utf8(bytes@) ==> s@ == decode_utf8(bytes@),
{
    String::from_utf8_lossy(bytes.as_slice()).into_owned()
}

/// The text of one line of a streamed reply, trimmed; `None` for a blank
/// line, which is skipped.
pub fn stream_line(line: &Vec<u8>) -> (r: Option<String>)
    ensures
        match r {
            Some(s) => s@ == trim(utf8_lossy(line@)) && s@.len() > 0,
            None => trim(utf8_lossy(line@)).len() == 0,
        },
{
    let text = decode_lossy(line);
    let t = trim_exec(&chars_of(text.as_str()));
    if t.len() == 0 {
        None
    } else {
        Some(string_of(&t))
    }
}

/// One line of a streamed chat reply, as the server sends it.
#[derive(Debug, Clone)]
pub struct ChatChunk {
    pub message: Option<ChatMessage>,
    pub done: bool,
    pub error: Option<String>,
}

/// What a line of the reply gives: an item to hand on, and whether the
/// reply ends there.
#[derive(Debug, Clone)]
pub struct StreamStep {
    pub item: Option<Result<String, OllamaError>>,
    pub finished: bool,
}

/// The step for one line of a streamed reply, parsed (`Ok`) or refused
/// by the JSON parser (`Err` with the parser's message): an error reported
/// by the server ends the reply with that error; otherwise non-empty
/// message content is handed on and `done` ends the reply; a line that
/// does not parse ends it with an error.
pub fn on_stream_line(parsed: Result<ChatChunk, String>) -> (step: StreamStep)
    ensures
        match parsed {
            Ok(chunk) => match chunk.error {
                Some(err) => step.finished && (step.item matches Some(Err(OllamaError::Other(e)))
                    && e == err),
                None => step.finished == chunk.done && match chunk.message {
                    Some(m) => if m.content@.len() > 0 {
                        step.item == Some(Ok::<String, OllamaError>(m.content))
                    } else {
                        step.item is None
                    },
                    None => step.item is None,
                },
            },
            Err(msg) => step.finished && (step.item matches Some(Err(OllamaError::Other(e)))
                && e@ == "bad response line: "@ + msg@),
        },
{
    match parsed {
        Ok(chunk) => {
            if let Some(err) = chunk.error {
                return StreamStep { item: Some(Err(OllamaError::Other(err))), finished: true };
            }
            let item = match chunk.message {
                Some(m) => if m.content.as_str().is_empty() {
                    None
                } else {
                    Some(Ok(m.content))
                },
                None => None,
            };
            StreamStep { item, finished: chunk.done }
        },
        Err(msg) => {
            let mut out = chars_of("bad response line: ");
            push_all(&mut out, &chars_of(msg.as_str()));
            StreamStep { item: Some(Err(OllamaError::Other(string_of(&out)))), finished: true }
        },
    }
}

proof fn lemma_concat_prepend(f: Seq<u8>, r: Seq<Seq<u8>>)
    ensures
        concat_lines(seq![f] + r) == f + concat_lines(r),
    decreases r.len(),
{
    if r.len() == 0 {
        assert(seq![f] + r =~= seq![f]);
        assert(seq![f].drop_last() =~= Seq::<Seq<u8>>::empty());
        assert(concat_lines(seq![f]) == concat_lines(Seq::<Seq<u8>>::empty()) + f);
        assert(Seq::<u8>::empty() + f =~= f);
        assert(f + concat_lines(r) =~= f);
    } else {
        lemma_concat_prepend(f, r.drop_last());
        assert((seq![f] + r).drop_last() =~= seq![f] + r.drop_last());
        assert(f + concat_lines(r.drop_last()) + r.last() =~= f + (concat_lines(r.drop_last())
            + r.last()));
    }
}

proof fn lemma_concat_append(a: Seq<Seq<u8>>, b: Seq<Seq<u8>>)
    ensures
        concat_lines(a + b) == concat_lines(a) + concat_lines(b),
    decreases b.len(),
{
    if b.len() == 0 {
        assert(a + b =~= a);
        assert(concat_lines(a) + concat_lines(b) =~= concat_lines(a));
    } else {
        lemma_concat_append(a, b.drop_last());
        assert((a + b).drop_last() =~= a + b.drop_last());
        assert(concat_lines(a) + concat_lines(b.drop_last()) + b.last() =~= concat_lines(a) + (
        concat_lines(b.drop_last()) + b.last()));
    }
}

/// All lines complete.
pub open spec fn all_complete(lines: Seq<Seq<u8>>) -> bool {
    forall|i: int| 0 <= i < lines.len() ==> is_complete_line(#[trigger] lines[i])
}

proof fn lemma_tail_complete(lines: Seq<Seq<u8>>)
    requires
        all_complete(lines),
        lines.len() > 0,
    ensures
        all_complete(lines.drop_first()),
        is_complete_line(lines[0]),
{
    assert forall|i: int| 0 <= i < lines.drop_first().len() implies is_complete_line(
        #[trigger] lines.drop_first()[i],
    ) by {
        assert(lines.drop_first()[i] == lines[i + 1]);
    }
}

proof fn lemma_complete_first_break(f: Seq<u8>, rest: Seq<u8>, k: int)
    requires
        is_complete_line(f),
        0 <= k < f.len() - 1,
    ensures
        (f + rest)[k] != 10u8,
{
    assert((f + rest)[k] == f[k]);
    assert(f.drop_last()[k] == f[k]);
}

/// The complete lines and the held-back rest of a byte stream are
/// determined by the stream: no two ways of cutting it agree.
pub proof fn law_line_split_unique(l1: Seq<Seq<u8>>, p1: Seq<u8>, l2: Seq<Seq<u8>>, p2: Seq<u8>)
    requires
        concat_lines(l1) + p1 == concat_lines(l2) + p2,
        all_complete(l1),
        all_complete(l2),
        !p1.contains(10u8),
        !p2.contains(10u8),
    ensures
        l1 == l2,
        p1 == p2,
    decreases l1.len(),
{
    let x = concat_lines(l1) + p1;
    if l1.len() == 0 || l2.len() == 0 {
        if l1.len() > 0 {
            lemma_tail_complete(l1);
            lemma_concat_prepend(l1[0], l1.drop_first());
            assert(l1 =~= seq![l1[0]] + l1.drop_first());
            assert(x[l1[0].len() - 1] == 10u8);
            assert(concat_lines(l2) =~= Seq::<u8>::empty());
            assert(p2[l1[0].len() - 1] == 10u8);
        } else if l2.len() > 0 {
            lemma_tail_complete(l2);
            lemma_concat_prepend(l2[0], l2.drop_first());
            assert(l2 =~= seq![l2[0]] + l2.drop_first());
            assert(x[l2[0].len() - 1] == 10u8);
            assert(concat_lines(l1) =~= Seq::<u8>::empty());
            assert(p1[l2[0].len() - 1] == 10u8);
        } else {
            assert(concat_lines(l1) + p1 =~= p1);
            assert(concat_lines(l2) + p2 =~= p2);
        }
    } else {
        let f1 = l1[0];
        let f2 = l2[0];
        let r1 = l1.drop_first();
        let r2 = l2.drop_first();
        lemma_tail_complete(l1);
        lemma_tail_complete(l2);
        lemma_concat_prepend(f1, r1);
        lemma_concat_prepend(f2, r2);
        assert(l1 =~= seq![f1] + r1);
        assert(l2 =~= seq![f2] + r2);
        let t1 = concat_lines(r1) + p1;
        let t2 = concat_lines(r2) + p2;
        assert(x =~= f1 + t1);
        assert(x =~= f2 + t2);
        if f1.len() < f2.len() {
            assert((f1 + t1)[f1.len() - 1] == 10u8);
            lemma_complete_first_break(f2, t2, f1.len() - 1);
        } else if f2.len() < f1.len() {
            assert((f2 + t2)[f2.len() - 1] == 10u8);
            lemma_complete_first_break(f1, t1, f2.len() - 1);
        }
        assert(f1 =~= x.subrange(0, f1.len() as int));
        assert(f2 =~= x.subrange(0, f2.len() as int));
        assert(t1 =~= x.subrange(f1.len() as int, x.len() as int));
        assert(t2 =~= x.subrange(f2.len() as int, x.len() as int));
        law_line_split_unique(r1, p1, r2, p2);
    }
}

/// How the bytes of a reply arrive in pieces does not matter: feeding `a`
/// and then `c` gives the lines, and holds back the rest, that feeding
/// `a + c` at once gives.
pub proof fn law_feed_in_pieces(
    p0: Seq<u8>,
    a: Seq<u8>,
    c: Seq<u8>,
    l1: Seq<Seq<u8>>,
    p1: Seq<u8>,
    l2: Seq<Seq<u8>>,
    p2: Seq<u8>,
    l: Seq<Seq<u8>>,
    p: Seq<u8>,
)
    requires
        concat_lines(l1) + p1 == p0 + a,
        concat_lines(l2) + p2 == p1 + c,
        concat_lines(l) + p == p0 + (a + c),
        all_complete(l1),
        all_complete(l2),
        all_complete(l),
        !p1.contains(10u8),
        !p2.contains(10u8),
        !p.contains(10u8),
    ensures
        l1 + l2 == l,
        p2 == p,
{
    lemma_concat_append(l1, l2);
    assert(concat_lines(l1) + concat_lines(l2) + p2 =~= concat_lines(l1) + (concat_lines(l2) + p2));
    assert(concat_lines(l1) + (p1 + c) =~= (concat_lines(l1) + p1) + c);
    assert((p0 + a) + c =~= p0 + (a + c));
    assert(concat_lines(l1 + l2) + p2 =~= p0 + (a + c));
    assert forall|i: int| 0 <= i < (l1 + l2).len() implies is_complete_line(#[trigger] (l1 + l2)[i]) by {
        if i < l1.len() {
            assert((l1 + l2)[i] == l1[i]);
        } else {
            assert((l1 + l2)[i] == l2[i - l1.len()]);
        }
    }
    law_line_split_unique(l1 + l2, p2, l, p);
}

/// Trailing slashes of the host do not change the server address.
pub proof fn law_trailing_slash_ignored(host: Seq<char>, port: u16)
    ensures
        base_url(host.push('/'), port) == base_url(host, port),
{
    assert(host.push('/').drop_last() =~= host);
}

/// A host without a scheme is reached over plain HTTP; one with a scheme
/// keeps it.
pub proof fn law_scheme_defaults_to_http(host: Seq<char>, port: u16)
    ensures
        starts_with(base_url(host, port), "http://"@) || starts_with(base_url(host, port), "https://"@),
{
    let h = trim_end_slashes(host);
    let u = base_url(host, port);
    let a = "http://"@;
    let b = "https://"@;
    if starts_with(h, a) {
        assert(u.subrange(0, a.len() as int) =~= h.subrange(0, a.len() as int));
    } else if starts_with(h, b) {
        assert(u.subrange(0, b.len() as int) =~= h.subrange(0, b.len() as int));
    } else {
        assert(u.subrange(0, ("http://"@).len() as int) =~= "http://"@);
    }
}

proof fn lemma_digit(d: nat)
    requires
        d < 10,
    ensures
        (digit(d) as u32) - 48 == d,
        is_digit(digit(d)),
        d > 0 ==> digit(d) != '0',
{
}

/// The decimal notation of a number reads back as that number: it is made
/// of digits only, has no leading zero, and its digits' value is `n`; so
/// `str::parse` gives back any port written this way.
pub proof fn law_decimal_reads_back(n: nat)
    ensures
        decimal(n).len() > 0,
        all_digits(decimal(n)),
        digits_value(decimal(n)) == n,
        n > 0 ==> decimal(n)[0] != '0',
        n <= u16::MAX ==> parse_u16_spec(decimal(n)) == Some(n as u16),
    decreases n,
{
    lemma_digit(n % 10);
    if n < 10 {
        assert(n % 10 == n);
        assert(decimal(n).drop_last() =~= Seq::<char>::empty());
        assert(decimal(n).last() == digit(n));
        assert(digits_value(decimal(n)) == digits_value(Seq::<char>::empty()) * 10 + ((digit(n) as u32) - 48) as nat);
    }
    if n >= 10 {
        law_decimal_reads_back(n / 10);
        assert(n == (n / 10) * 10 + n % 10);
        assert(decimal(n).last() == digit(n % 10));
        assert(decimal(n).drop_last() =~= decimal(n / 10));
        assert(digits_value(decimal(n)) == digits_value(decimal(n / 10)) * 10 + ((digit(n % 10) as u32) - 48) as nat);
        let d = decimal(n);
        assert(d.drop_last() == decimal(n / 10));
        assert(d[0] == decimal(n / 10)[0]);
        assert forall|i: int| 0 <= i < d.len() implies is_digit(#[trigger] d[i]) by {
            if i < d.len() - 1 {
                assert(d[i] == decimal(n / 10)[i]);
            }
        }
    }
    let d = decimal(n);
    if n <= u16::MAX {
        assert(d[0] != '+');
    }
}

/// The server address is the host, without trailing slashes, a colon and
/// the port in decimal. A host that names no scheme is reached over plain
/// HTTP (`http://` in front, never `https://`); one that names `http://`
/// or `https://` keeps it as written.
pub proof fn law_server_address(host: Seq<char>, port: u16)
    ensures
        ({
            let h = trim_end_slashes(host);
            let tail = h + ":"@ + decimal(port as nat);
            &&& (!starts_with(h, "http://"@) && !starts_with(h, "https://"@)) ==> base_url(host, port)
                == "http://"@ + tail
            &&& (starts_with(h, "http://"@) || starts_with(h, "https://"@)) ==> base_url(host, port)
                == tail
            &&& !starts_with(h, "http://"@) && !starts_with(h, "https://"@) ==> !starts_with(
                base_url(host, port),
                "https://"@,
            )
        }),
{
    let h = trim_end_slashes(host);
    let tail = h + ":"@ + decimal(port as nat);
    if !starts_with(h, "http://"@) && !starts_with(h, "https://"@) {
        reveal_strlit("http://");
        reveal_strlit("https://");
        let u = base_url(host, port);
        assert(u =~= "http://"@ + tail);
        if starts_with(u, "https://"@) {
            assert(u.subrange(0, 8)[4] == u[4]);
            assert(("https://"@)[4] == 's');
            assert(("http://"@)[4] == ':');
            assert(u[4] == ("http://"@)[4]);
        }
    } else {
        assert(base_url(host, port) =~= tail);
    }
}

/// The complete lines of a byte stream, each with its `'\n'`, and the
/// bytes after the last line break.
pub open spec fn split_lines(x: Seq<u8>) -> (Seq<Seq<u8>>, Seq<u8>)
    decreases x.len(),
{
    if x.len() == 0 {
        (Seq::empty(), Seq::empty())
    } else {
        let prev = split_lines(x.drop_last());
        if x.last() == 10u8 {
            (prev.0.push(prev.1.push(10u8)), Seq::empty())
        } else {
            (prev.0, prev.1.push(x.last()))
        }
    }
}

proof fn lemma_split_lines_valid(x: Seq<u8>)
    ensures
        concat_lines(split_lines(x).0) + split_lines(x).1 == x,
        all_complete(split_lines(x).0),
        !split_lines(x).1.contains(10u8),
    decreases x.len(),
{
    if x.len() == 0 {
        assert(concat_lines(Seq::<Seq<u8>>::empty()) + Seq::<u8>::empty() =~= x);
    } else {
        lemma_split_lines_valid(x.drop_last());
        let prev = split_lines(x.drop_last());
        let b = x.last();
        assert(x =~= x.drop_last().push(b));
        if b == 10u8 {
            let line = prev.1.push(10u8);
            assert(line.drop_last() =~= prev.1);
            assert(prev.0.push(line).drop_last() =~= prev.0);
            assert(concat_lines(prev.0.push(line)) + Seq::<u8>::empty() =~= concat_lines(prev.0)
                + prev.1 + seq![10u8]);
            assert forall|i: int| 0 <= i < prev.0.push(line).len() implies is_complete_line(
                #[trigger] prev.0.push(line)[i],
            ) by {
                if i < prev.0.len() {
                    assert(prev.0.push(line)[i] == prev.0[i]);
                }
            }
        } else {
            assert(concat_lines(prev.0) + prev.1.push(b) =~= concat_lines(prev.0) + prev.1 + seq![b]);
            assert(!prev.1.push(b).contains(10u8)) by {
                if prev.1.push(b).contains(10u8) {
                    let k = choose|k: int| 0 <= k < prev.1.push(b).len() && prev.1.push(b)[k] == 10u8;
                    if k < prev.1.len() {
                        assert(prev.1[k] == 10u8);
                    }
                }
            }
        }
    }
}

/// The lines given out, and the bytes held back, when the pieces are fed
/// one after the other to a buffer holding `p0`.
pub open spec fn feed_all(p0: Seq<u8>, pieces: Seq<Seq<u8>>) -> (Seq<Seq<u8>>, Seq<u8>)
    decreases pieces.len(),
{
    if pieces.len() == 0 {
        (Seq::empty(), p0)
    } else {
        let first = split_lines(p0 + pieces[0]);
        let rest = feed_all(first.1, pieces.drop_first());
        (first.0 + rest.0, rest.1)
    }
}

/// However a reply is cut into pieces, feeding them one by one gives the
/// lines, and holds back the rest, that feeding the whole reply at once
/// gives.
pub proof fn law_feed_any_pieces(p0: Seq<u8>, pieces: Seq<Seq<u8>>)
    requires
        !p0.contains(10u8),
    ensures
        feed_all(p0, pieces) == split_lines(p0 + concat_lines(pieces)),
    decreases pieces.len(),
{
    if pieces.len() == 0 {
        lemma_split_lines_valid(p0);
        assert(concat_lines(Seq::<Seq<u8>>::empty()) + p0 =~= p0);
        assert(p0 + concat_lines(pieces) =~= p0);
        law_line_split_unique(Seq::empty(), p0, split_lines(p0).0, split_lines(p0).1);
    } else {
        let a = pieces[0];
        let rest = pieces.drop_first();
        let first = split_lines(p0 + a);
        lemma_split_lines_valid(p0 + a);
        law_feed_any_pieces(first.1, rest);
        let later = feed_all(first.1, rest);
        lemma_split_lines_valid(first.1 + concat_lines(rest));
        let whole = split_lines(p0 + (a + concat_lines(rest)));
        lemma_split_lines_valid(p0 + (a + concat_lines(rest)));
        law_feed_in_pieces(
            p0,
            a,
            concat_lines(rest),
            first.0,
            first.1,
            later.0,
            later.1,
            whole.0,
            whole.1,
        );
        lemma_concat_prepend(a, rest);
        assert(pieces =~= seq![a] + rest);
    }
}

/// A reply whose transport fails ends with that failure.
pub fn on_transport_error(detail: String) -> (step: StreamStep)
    ensures
        step.finished,
        step.item matches Some(Err(OllamaError::Other(e))) && e == detail,
{
    StreamStep { item: Some(Err(OllamaError::Other(detail))), finished: true }
}
} // verus!
