//! What the chat model is sent: the system prompt, grounded in the
//! retrieved documentation, the conversation so far and the new prompt.

use vstd::prelude::*;
use crate::app::ChatEvent;
use crate::ollama::{error_message, message_views, ChatMessage, ChatMessageView, OllamaError};
use crate::rag::chunker::{chunk_views, Chunk, ChunkView};
use crate::text::{chars_eq, chars_of, push_all, string_of, string_views};

verus! {

/// The instructions that open every conversation.
pub const SYSTEM_PROMPT: &'static str = "You are the ncOS Assistant, a helper for ncOS, an Arch Linux-based distribution using the COSMIC desktop environment. Answer the user's questions concisely and accurately. Prefer the documentation context below when it covers the question, and cite sources inline like [source: file.md > heading]. If the documentation does not cover the question, say so briefly, then give your best general Arch Linux / COSMIC answer.";

/// How a retrieved chunk is cited: its source, and its heading path where
/// it has one.
pub open spec fn hit_label(c: ChunkView) -> Seq<char> {
    if c.heading_path.len() == 0 {
        c.source
    } else {
        c.source + " > "@ + c.heading_path
    }
}

/// The text of the retrieved chunks, each on lines of its own.
pub open spec fn context_block(hits: Seq<ChunkView>) -> Seq<char>
    decreases hits.len(),
{
    if hits.len() == 0 {
        Seq::empty()
    } else {
        context_block(hits.drop_last()) + "\n"@ + hits.last().text + "\n"@
    }
}

/// The citations of the retrieved chunks, each once, in order of first
/// appearance.
pub open spec fn source_labels(hits: Seq<ChunkView>) -> Seq<Seq<char>>
    decreases hits.len(),
{
    if hits.len() == 0 {
        Seq::empty()
    } else {
        let r = source_labels(hits.drop_last());
        if r.contains(hit_label(hits.last())) {
            r
        } else {
            r.push(hit_label(hits.last()))
        }
    }
}

/// The system prompt: the instructions, followed by the documentation
/// context where chunks were retrieved.
pub open spec fn grounded_prompt(hits: Seq<ChunkView>) -> Seq<char> {
    if hits.len() == 0 {
        SYSTEM_PROMPT@
    } else {
        SYSTEM_PROMPT@ + "\n\nDocumentation context:\n"@ + context_block(hits)
    }
}

/// The system prompt of a question and the sources to show with the
/// answer (`None` where nothing was retrieved).
#[derive(Debug, Clone)]
pub struct Grounding {
    pub system: String,
    pub sources: Option<Vec<String>>,
}

fn label_of(c: &Chunk) -> (l: Vec<char>)
    ensures
        l@ == hit_label(c@),
{
    let mut l = chars_of(c.source.as_str());
    if !c.heading_path.as_str().is_empty() {
        push_all(&mut l, &chars_of(" > "));
        push_all(&mut l, &chars_of(c.heading_path.as_str()));
    }
    l
}

fn contains_label(labels: &Vec<String>, l: &Vec<char>) -> (b: bool)
    ensures
        b == string_views(labels@).contains(l@),
{
    let mut i: usize = 0;
    while i < labels.len()
        invariant
            i <= labels@.len(),
            forall|k: int| 0 <= k < i ==> string_views(labels@)[k] != l@,
        decreases labels@.len() - i,
    {
        if chars_eq(&chars_of(labels[i].as_str()), l) {
            assert(string_views(labels@)[i as int] == l@);
            return true;
        }
        i = i + 1;
    }
    false
}

/// The system prompt and sources for the chunks retrieved for a question.
pub fn ground(hits: &Vec<Chunk>) -> (g: Grounding)
    ensures
        g.system@ == grounded_prompt(chunk_views(hits@)),
        match g.sources {
            Some(v) => hits@.len() > 0 && string_views(v@) == source_labels(chunk_views(hits@)),
            None => hits@.len() == 0,
        },
{
    let ghost hv = chunk_views(hits@);
    let mut system = chars_of(SYSTEM_PROMPT);
    if hits.len() == 0 {
        return Grounding { system: string_of(&system), sources: None };
    }
    push_all(&mut system, &chars_of("\n\nDocumentation context:\n"));
    let ghost head = system@;
    let mut labels: Vec<String> = Vec::new();
    let mut i: usize = 0;
    assert(head =~= head + context_block(hv.take(0)));
    assert(string_views(labels@) =~= source_labels(hv.take(0)));
    while i < hits.len()
        invariant
            i <= hits@.len(),
            hv == chunk_views(hits@),
            system@ == head + context_block(hv.take(i as int)),
            string_views(labels@) == source_labels(hv.take(i as int)),
        decreases hits@.len() - i,
    {
        let hit = &hits[i];
        assert(hv[i as int] == hit@);
        assert(hv.take(i + 1).drop_last() =~= hv.take(i as int));
        push_all(&mut system, &chars_of("\n"));
        push_all(&mut system, &chars_of(hit.text.as_str()));
        push_all(&mut system, &chars_of("\n"));
        let label = label_of(hit);
        if !contains_label(&labels, &label) {
            let ghost old_l = labels@;
            labels.push(string_of(&label));
            assert(string_views(labels@) =~= string_views(old_l).push(label@));
        }
        i = i + 1;
        assert(system@ =~= head + context_block(hv.take(i as int)));
    }
    assert(hv.take(i as int) =~= hv);
    Grounding { system: string_of(&system), sources: Some(labels) }
}

/// The messages of a request: the system prompt, the conversation so far,
/// then the new prompt from the user.
pub open spec fn request_messages(system: Seq<char>, history: Seq<ChatMessageView>, prompt: Seq<char>) -> Seq<ChatMessageView> {
    seq![ChatMessageView { role: "system"@, content: system }] + history + seq![
        ChatMessageView { role: "user"@, content: prompt },
    ]
}

/// The messages of a chat request.
pub fn chat_messages(system: &str, history: Vec<ChatMessage>, prompt: &str) -> (r: Vec<ChatMessage>)
    ensures
        message_views(r@) == request_messages(system@, message_views(history@), prompt@),
{
    let mut r: Vec<ChatMessage> = Vec::new();
    let first = ChatMessage::new("system", system);
    r.push(first);
    let mut rest = history;
    let ghost hv = message_views(rest@);
    r.append(&mut rest);
    let last = ChatMessage::new("user", prompt);
    r.push(last);
    assert(message_views(r@) =~= request_messages(system@, hv, prompt@));
    r
}


/// The event for a failed retrieval or chat request: the error's message.
pub fn failed_event(e: &OllamaError) -> (ev: ChatEvent)
    ensures
        ev matches ChatEvent::Failed(m) && m@ == error_message(*e),
{
    ChatEvent::Failed(e.message())
}

/// The event for the next item of a streamed reply: a piece of text is
/// handed on, an error fails the request, and the end of the stream
/// completes it. Only a piece of text lets the reply go on.
pub fn reply_event(item: Option<Result<String, OllamaError>>) -> (ev: ChatEvent)
    ensures
        match item {
            Some(Ok(t)) => ev == ChatEvent::Token(t),
            Some(Err(e)) => ev matches ChatEvent::Failed(m) && m@ == error_message(e),
            None => ev == ChatEvent::Done,
        },
{
    match item {
        Some(Ok(t)) => ChatEvent::Token(t),
        Some(Err(e)) => failed_event(&e),
        None => ChatEvent::Done,
    }
}

/// The mathematical value of a [`ChatEvent`].
pub enum ChatEventView {
    Sources(Seq<Seq<char>>),
    Token(Seq<char>),
    Done,
    Failed(Seq<char>),
}

/// The view of a chat event.
pub open spec fn chat_event_view(e: ChatEvent) -> ChatEventView {
    match e {
        ChatEvent::Sources(v) => ChatEventView::Sources(string_views(v@)),
        ChatEvent::Token(t) => ChatEventView::Token(t@),
        ChatEvent::Done => ChatEventView::Done,
        ChatEvent::Failed(m) => ChatEventView::Failed(m@),
    }
}

/// The views of chat events.
pub open spec fn chat_event_views(v: Seq<ChatEvent>) -> Seq<ChatEventView> {
    v.map_values(|e: ChatEvent| chat_event_view(e))
}

/// What the shell does next in a chat turn.
#[derive(Debug, Clone)]
pub enum TurnAction {
    /// Embed the prompt and search the index.
    Retrieve,
    /// Send the chat request with these messages.
    Ask(Vec<ChatMessage>),
    /// Wait for the next item of the reply.
    ReadReply,
    /// The turn is over; nothing more is asked or reported.
    Stop,
}

/// The mathematical value of a [`TurnAction`].
pub enum TurnActionView {
    Retrieve,
    Ask(Seq<ChatMessageView>),
    ReadReply,
    Stop,
}

/// The events a step of a chat turn reports, in order, and what follows.
#[derive(Debug, Clone)]
pub struct TurnStep {
    pub events: Vec<ChatEvent>,
    pub next: TurnAction,
}

/// The mathematical value of a [`TurnStep`].
pub struct TurnStepView {
    pub events: Seq<ChatEventView>,
    pub next: TurnActionView,
}

impl View for TurnStep {
    type V = TurnStepView;

    open spec fn view(&self) -> TurnStepView {
        TurnStepView {
            events: chat_event_views(self.events@),
            next: match self.next {
                TurnAction::Retrieve => TurnActionView::Retrieve,
                TurnAction::Ask(m) => TurnActionView::Ask(message_views(m@)),
                TurnAction::ReadReply => TurnActionView::ReadReply,
                TurnAction::Stop => TurnActionView::Stop,
            },
        }
    }
}

/// A turn retrieves documentation only where an index with at least one
/// chunk is held (`entries` is the number of its chunks).
pub open spec fn turn_retrieves(entries: Option<nat>) -> bool {
    match entries {
        Some(n) => n > 0,
        None => false,
    }
}

/// The step after retrieval (or, where nothing was retrieved, at the start
/// with no chunks): a failure ends the turn with its message and no chat
/// request; otherwise the sources are reported where chunks were found and
/// the request grounded in them is sent.
pub open spec fn retrieval_step(
    outcome: Result<Seq<ChunkView>, OllamaError>,
    history: Seq<ChatMessageView>,
    prompt: Seq<char>,
) -> TurnStepView {
    match outcome {
        Err(e) => TurnStepView {
            events: seq![ChatEventView::Failed(error_message(e))],
            next: TurnActionView::Stop,
        },
        Ok(hits) => TurnStepView {
            events: if hits.len() > 0 {
                seq![ChatEventView::Sources(source_labels(hits))]
            } else {
                Seq::empty()
            },
            next: TurnActionView::Ask(request_messages(grounded_prompt(hits), history, prompt)),
        },
    }
}

/// The step after the chat request was sent: a failure to send ends the
/// turn with its message; otherwise the reply is read.
pub open spec fn request_step(sent: Result<(), OllamaError>) -> TurnStepView {
    match sent {
        Err(e) => TurnStepView {
            events: seq![ChatEventView::Failed(error_message(e))],
            next: TurnActionView::Stop,
        },
        Ok(_) => TurnStepView { events: Seq::empty(), next: TurnActionView::ReadReply },
    }
}

/// The step for the next item of the reply: a piece of text is reported
/// and reading goes on; an error or the end of the reply is reported and
/// ends the turn.
pub open spec fn item_step(item: Option<Result<String, OllamaError>>) -> TurnStepView {
    match item {
        Some(Ok(t)) => TurnStepView {
            events: seq![ChatEventView::Token(t@)],
            next: TurnActionView::ReadReply,
        },
        Some(Err(e)) => TurnStepView {
            events: seq![ChatEventView::Failed(error_message(e))],
            next: TurnActionView::Stop,
        },
        None => TurnStepView { events: seq![ChatEventView::Done], next: TurnActionView::Stop },
    }
}

/// The view of a retrieval outcome.
pub open spec fn retrieval_view(outcome: Result<Vec<Chunk>, OllamaError>) -> Result<Seq<ChunkView>, OllamaError> {
    match outcome {
        Ok(h) => Ok(chunk_views(h@)),
        Err(e) => Err(e),
    }
}

/// Whether a turn retrieves documentation, given the number of chunks of
/// the index held, if any.
pub fn turn_retrieves_exec(entries: Option<usize>) -> (b: bool)
    ensures
        b == turn_retrieves(
            match entries {
                Some(n) => Some(n as nat),
                None => None,
            },
        ),
{
    match entries {
        Some(n) => n > 0,
        None => false,
    }
}

/// The step after retrieval; a turn that retrieves nothing starts here
/// with no chunks.
pub fn after_retrieval(outcome: Result<Vec<Chunk>, OllamaError>, history: Vec<ChatMessage>, prompt: &str) -> (s: TurnStep)
    ensures
        s@ == retrieval_step(retrieval_view(outcome), message_views(history@), prompt@),
{
    let mut events: Vec<ChatEvent> = Vec::new();
    match outcome {
        Err(e) => {
            events.push(failed_event(&e));
            let s = TurnStep { events, next: TurnAction::Stop };
            assert(s@.events =~= retrieval_step(retrieval_view(outcome), message_views(history@), prompt@).events);
            s
        },
        Ok(hits) => {
            let g = ground(&hits);
            match g.sources {
                Some(labels) => events.push(ChatEvent::Sources(labels)),
                None => {},
            }
            let messages = chat_messages(g.system.as_str(), history, prompt);
            let s = TurnStep { events, next: TurnAction::Ask(messages) };
            assert(s@.events =~= retrieval_step(retrieval_view(outcome), message_views(history@), prompt@).events);
            s
        },
    }
}

/// The step after the chat request was sent, or failed to be.
pub fn after_request(sent: Result<(), OllamaError>) -> (s: TurnStep)
    ensures
        s@ == request_step(sent),
{
    let mut events: Vec<ChatEvent> = Vec::new();
    let next = match sent {
        Err(e) => {
            events.push(failed_event(&e));
            TurnAction::Stop
        },
        Ok(_) => TurnAction::ReadReply,
    };
    let s = TurnStep { events, next };
    assert(s@.events =~= request_step(sent).events);
    s
}

/// The step for the next item of the reply (`None` at its end).
pub fn after_item(item: Option<Result<String, OllamaError>>) -> (s: TurnStep)
    ensures
        s@ == item_step(item),
{
    let goes_on = match &item {
        Some(Ok(_)) => true,
        _ => false,
    };
    let ev = reply_event(item);
    let mut events: Vec<ChatEvent> = Vec::new();
    events.push(ev);
    let s = TurnStep { events, next: if goes_on { TurnAction::ReadReply } else { TurnAction::Stop } };
    assert(s@.events =~= item_step(item).events);
    s
}

/// The events of reading the reply items in order, up to the item that
/// ends the turn.
pub open spec fn reply_events(items: Seq<Option<Result<String, OllamaError>>>) -> Seq<ChatEventView>
    decreases items.len(),
{
    if items.len() == 0 {
        Seq::empty()
    } else {
        let st = item_step(items[0]);
        st.events + if st.next is ReadReply {
            reply_events(items.drop_first())
        } else {
            Seq::empty()
        }
    }
}

/// The events of a whole chat turn: `entries` is the number of chunks of
/// the index held, `retrieval` what retrieval gives where it runs, `sent`
/// whether the chat request could be sent, and `items` the reply.
pub open spec fn turn_events(
    entries: Option<nat>,
    retrieval: Result<Seq<ChunkView>, OllamaError>,
    history: Seq<ChatMessageView>,
    prompt: Seq<char>,
    sent: Result<(), OllamaError>,
    items: Seq<Option<Result<String, OllamaError>>>,
) -> Seq<ChatEventView> {
    let first = retrieval_step(
        if turn_retrieves(entries) { retrieval } else { Ok(Seq::empty()) },
        history,
        prompt,
    );
    if first.next is Stop {
        first.events
    } else {
        let second = request_step(sent);
        first.events + second.events + if second.next is ReadReply {
            reply_events(items)
        } else {
            Seq::empty()
        }
    }
}

/// The text pieces of the first `k` items, each of them a piece of text.
pub open spec fn token_events(items: Seq<Option<Result<String, OllamaError>>>, k: nat) -> Seq<ChatEventView> {
    Seq::new(k, |j: int| ChatEventView::Token(items[j]->Some_0->Ok_0@))
}

/// The event of the item that ends a reply: its end, or its error.
pub open spec fn closing_event(item: Option<Result<String, OllamaError>>) -> ChatEventView {
    match item {
        Some(Err(e)) => ChatEventView::Failed(error_message(e)),
        _ => ChatEventView::Done,
    }
}

/// Whether a reply item is a piece of text.
pub open spec fn is_text(item: Option<Result<String, OllamaError>>) -> bool {
    match item {
        Some(Ok(_)) => true,
        _ => false,
    }
}

/// Only text items before the `k`-th, which ends the reply.
pub open spec fn ends_at(items: Seq<Option<Result<String, OllamaError>>>, k: nat) -> bool {
    &&& k < items.len()
    &&& forall|j: int| 0 <= j < k ==> is_text(#[trigger] items[j])
    &&& !is_text(items[k as int])
}

proof fn lemma_reply_events(items: Seq<Option<Result<String, OllamaError>>>, k: nat)
    requires
        ends_at(items, k),
    ensures
        reply_events(items) == token_events(items, k) + seq![closing_event(items[k as int])],
    decreases k,
{
    if k == 0 {
        assert(reply_events(items) =~= seq![closing_event(items[0])]);
    } else {
        let rest = items.drop_first();
        assert forall|j: int| 0 <= j < (k - 1) as nat implies is_text(#[trigger] rest[j]) by {
            assert(rest[j] == items[j + 1]);
        }
        assert(rest[(k - 1) as int] == items[k as int]);
        lemma_reply_events(rest, (k - 1) as nat);
        assert(is_text(items[0]));
        assert(reply_events(items) =~= token_events(items, k) + seq![closing_event(items[k as int])]) by {
            assert(token_events(items, k) =~= seq![ChatEventView::Token(items[0]->Some_0->Ok_0@)]
                + token_events(rest, (k - 1) as nat));
        }
    }
}

/// A chat turn retrieves documentation only where an index with chunks is
/// held. A failed retrieval ends the turn with its message and no chat
/// request. Otherwise the sources come first where chunks were found; then
/// a failure to send ends the turn, or every piece of text of the reply
/// follows in order, and the turn ends with exactly one last event: the end
/// of the reply, or the first error in it.
pub proof fn law_chat_turn(
    entries: Option<nat>,
    retrieval: Result<Seq<ChunkView>, OllamaError>,
    history: Seq<ChatMessageView>,
    prompt: Seq<char>,
    sent: Result<(), OllamaError>,
    items: Seq<Option<Result<String, OllamaError>>>,
    k: nat,
)
    requires
        ends_at(items, k),
    ensures
        ({
            let evs = turn_events(entries, retrieval, history, prompt, sent, items);
            let hits = if turn_retrieves(entries) { retrieval->Ok_0 } else { Seq::empty() };
            let head = if hits.len() > 0 {
                seq![ChatEventView::Sources(source_labels(hits))]
            } else {
                Seq::empty()
            };
            &&& turn_retrieves(entries) == (entries is Some && entries->Some_0 > 0)
            &&& (turn_retrieves(entries) && retrieval is Err) ==> evs == seq![
                ChatEventView::Failed(error_message(retrieval->Err_0)),
            ]
            &&& !(turn_retrieves(entries) && retrieval is Err) ==> evs == head + match sent {
                Err(e) => seq![ChatEventView::Failed(error_message(e))],
                Ok(_) => token_events(items, k) + seq![closing_event(items[k as int])],
            }
        }),
{
    lemma_reply_events(items, k);
    let evs = turn_events(entries, retrieval, history, prompt, sent, items);
    let hits = if turn_retrieves(entries) { retrieval->Ok_0 } else { Seq::empty() };
    let head = if hits.len() > 0 {
        seq![ChatEventView::Sources(source_labels(hits))]
    } else {
        Seq::empty()
    };
    if !(turn_retrieves(entries) && retrieval is Err) {
        match sent {
            Err(e) => {
                assert(evs =~= head + seq![ChatEventView::Failed(error_message(e))]);
            },
            Ok(_) => {
                assert(evs =~= head + (token_events(items, k) + seq![closing_event(items[k as int])]));
            },
        }
    }
}

/// The length of the context of `hits`: the text of each chunk with a
/// line break before and after it.
pub open spec fn context_len(hits: Seq<ChunkView>) -> nat
    decreases hits.len(),
{
    if hits.len() == 0 {
        0
    } else {
        context_len(hits.drop_last()) + hits.last().text.len() + 2
    }
}

/// One more retrieved chunk adds its text, between line breaks, at the end
/// of the context: no chunk is left out, whatever the number of chunks.
pub proof fn law_context_appends(hits: Seq<ChunkView>, c: ChunkView)
    ensures
        context_block(hits.push(c)) == context_block(hits) + "\n"@ + c.text + "\n"@,
{
    assert(hits.push(c).drop_last() =~= hits);
}

proof fn lemma_context_len(hits: Seq<ChunkView>)
    ensures
        context_block(hits).len() == context_len(hits),
    decreases hits.len(),
{
    reveal_strlit("\n");
    if hits.len() > 0 {
        lemma_context_len(hits.drop_last());
    }
}

proof fn lemma_context_prefix(hits: Seq<ChunkView>, k: int)
    requires
        0 <= k <= hits.len(),
    ensures
        context_len(hits.take(k)) <= context_len(hits),
        context_block(hits).subrange(0, context_len(hits.take(k)) as int) == context_block(hits.take(k)),
    decreases hits.len(),
{
    lemma_context_len(hits);
    if k == hits.len() {
        assert(hits.take(k) =~= hits);
        assert(context_block(hits).subrange(0, context_len(hits) as int) =~= context_block(hits));
    } else {
        let p = hits.drop_last();
        assert(p.take(k) =~= hits.take(k));
        lemma_context_prefix(p, k);
        lemma_context_len(p);
        let a = context_block(p);
        let b = "\n"@ + hits.last().text + "\n"@;
        assert(context_block(hits) == a + b);
        assert((a + b).subrange(0, context_len(hits.take(k)) as int) =~= a.subrange(
            0,
            context_len(hits.take(k)) as int,
        ));
    }
}

/// The context holds the text of every retrieved chunk, in order and
/// whole: it is as long as the texts with two line breaks each, and the
/// `i`-th chunk's text stands between line breaks right after those of
/// the chunks before it.
pub proof fn law_context_holds_every_chunk(hits: Seq<ChunkView>)
    ensures
        context_block(hits).len() == context_len(hits),
        forall|i: int|
            0 <= i < hits.len() ==> context_block(hits).subrange(
                context_len(hits.take(i)) as int,
                context_len(hits.take(i + 1)) as int,
            ) == "\n"@ + (#[trigger] hits[i]).text + "\n"@,
{
    reveal_strlit("\n");
    lemma_context_len(hits);
    assert forall|i: int| 0 <= i < hits.len() implies context_block(hits).subrange(
        context_len(hits.take(i)) as int,
        context_len(hits.take(i + 1)) as int,
    ) == "\n"@ + (#[trigger] hits[i]).text + "\n"@ by {
        let t = hits.take(i + 1);
        assert(t.drop_last() =~= hits.take(i));
        assert(t.last() == hits[i]);
        lemma_context_prefix(hits, i + 1);
        lemma_context_len(hits.take(i));
        let a = context_block(hits.take(i));
        let b = "\n"@ + hits[i].text + "\n"@;
        assert(context_block(t) == a + b);
        assert(context_block(hits).subrange(
            context_len(hits.take(i)) as int,
            context_len(t) as int,
        ) =~= (a + b).subrange(a.len() as int, (a + b).len() as int));
        assert((a + b).subrange(a.len() as int, (a + b).len() as int) =~= b);
    }
}

/// The model is given the text of every retrieved chunk: where chunks were
/// retrieved, the system prompt is the instructions, the context heading,
/// and then each chunk's text in order, each between line breaks.
pub proof fn law_prompt_holds_every_chunk(hits: Seq<ChunkView>)
    requires
        hits.len() > 0,
    ensures
        ({
            let head = SYSTEM_PROMPT@ + "\n\nDocumentation context:\n"@;
            let g = grounded_prompt(hits);
            &&& g.len() == head.len() + context_len(hits)
            &&& g.subrange(0, head.len() as int) == head
            &&& forall|i: int|
                0 <= i < hits.len() ==> g.subrange(
                    (head.len() + context_len(hits.take(i))) as int,
                    (head.len() + context_len(hits.take(i + 1))) as int,
                ) == "\n"@ + (#[trigger] hits[i]).text + "\n"@
        }),
{
    law_context_holds_every_chunk(hits);
    let head = SYSTEM_PROMPT@ + "\n\nDocumentation context:\n"@;
    let c = context_block(hits);
    let g = grounded_prompt(hits);
    assert(g == head + c);
    assert(g.subrange(0, head.len() as int) =~= head);
    assert forall|i: int| 0 <= i < hits.len() implies g.subrange(
        (head.len() + context_len(hits.take(i))) as int,
        (head.len() + context_len(hits.take(i + 1))) as int,
    ) == "\n"@ + (#[trigger] hits[i]).text + "\n"@ by {
        lemma_context_prefix(hits, i + 1);
        lemma_context_prefix(hits.take(i + 1), i);
        assert(hits.take(i + 1).take(i) =~= hits.take(i));
        assert(g.subrange((head.len() + context_len(hits.take(i))) as int, (head.len() + context_len(hits.take(i + 1))) as int)
            =~= c.subrange(context_len(hits.take(i)) as int, context_len(hits.take(i + 1)) as int));
    }
}

/// The sources shown with an answer name every retrieved chunk, each
/// exactly once.
pub proof fn law_sources_complete_and_distinct(hits: Seq<ChunkView>)
    ensures
        source_labels(hits).no_duplicates(),
        forall|i: int| 0 <= i < hits.len() ==> source_labels(hits).contains(hit_label(#[trigger] hits[i])),
        forall|j: int|
            #![trigger source_labels(hits)[j]]
            0 <= j < source_labels(hits).len() ==> exists|i: int|
                0 <= i < hits.len() && hit_label(#[trigger] hits[i]) == source_labels(hits)[j],
    decreases hits.len(),
{
    if hits.len() > 0 {
        let prev = hits.drop_last();
        law_sources_complete_and_distinct(prev);
        let r = source_labels(prev);
        let l = hit_label(hits.last());
        let out = source_labels(hits);
        assert(hits[hits.len() - 1] == hits.last());
        if !r.contains(l) {
            assert(out[r.len() as int] == l);
            assert forall|a: int, b: int| 0 <= a < out.len() && 0 <= b < out.len() && a != b implies out[a]
                != out[b] by {
                if a < r.len() && b < r.len() {
                    assert(out[a] == r[a] && out[b] == r[b]);
                } else if a < r.len() {
                    assert(out[a] == r[a]);
                } else if b < r.len() {
                    assert(out[b] == r[b]);
                }
            }
        }
        assert forall|i: int| 0 <= i < hits.len() implies out.contains(hit_label(#[trigger] hits[i])) by {
            if i < prev.len() {
                assert(hits[i] == prev[i]);
                let k = choose|k: int| 0 <= k < r.len() && r[k] == hit_label(prev[i]);
                assert(out[k] == r[k]);
            } else if !r.contains(l) {
                assert(out[r.len() as int] == l);
            }
        }
        assert forall|j: int| #![trigger out[j]] 0 <= j < out.len() implies exists|i: int|
            0 <= i < hits.len() && hit_label(#[trigger] hits[i]) == out[j] by {
            if j < r.len() {
                assert(out[j] == r[j]);
                let i = choose|i: int| 0 <= i < prev.len() && hit_label(#[trigger] prev[i]) == r[j];
                assert(hits[i] == prev[i]);
            } else {
                assert(hit_label(hits[hits.len() - 1]) == out[j]);
            }
        }
    }
}

/// The system prompt always opens with the instructions.
pub proof fn law_prompt_opens_with_instructions(hits: Seq<ChunkView>)
    ensures
        crate::text::starts_with(grounded_prompt(hits), SYSTEM_PROMPT@),
{
    let g = grounded_prompt(hits);
    if hits.len() > 0 {
        assert(g.subrange(0, SYSTEM_PROMPT@.len() as int) =~= SYSTEM_PROMPT@);
    } else {
        assert(g.subrange(0, SYSTEM_PROMPT@.len() as int) =~= SYSTEM_PROMPT@);
    }
}
} // verus!
