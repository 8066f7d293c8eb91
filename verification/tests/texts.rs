use ncos_assistant::app::{AssistantState, ChatEntry, IndexStatus, Message, Role};
use ncos_assistant::app::ChatEvent;
use ncos_assistant::chat::{chat_messages, failed_event, ground, reply_event, SYSTEM_PROMPT};
use ncos_assistant::ollama::OllamaError;
use ncos_assistant::config::AssistantConfig;
use ncos_assistant::ollama::ChatMessage;
use ncos_assistant::rag::chunker::Chunk;
use ncos_assistant::ui::{answer_text, sources_caption};

fn state() -> AssistantState {
    AssistantState::init(AssistantConfig::default(), None)
}

#[test]
fn status_line_texts() {
    let mut s = state();
    assert_eq!(s.status_line(), "Ollama @ localhost:11434 · no index");
    s.update(Message::HealthChecked(true));
    s.index_status = IndexStatus::Building { done: 3, total: 10 };
    assert_eq!(s.status_line(), "Ollama @ localhost:11434 · connected · indexing 3/10…");
    s.update(Message::HealthChecked(false));
    s.index_status = IndexStatus::Building { done: 0, total: 0 };
    assert_eq!(s.status_line(), "Ollama @ localhost:11434 · offline · indexing…");
    s.index_status = IndexStatus::Ready { chunks: 42 };
    assert_eq!(s.status_line(), "Ollama @ localhost:11434 · offline · 42 doc chunks");
    s.index_status = IndexStatus::Failed("x".into());
    assert_eq!(s.status_line(), "Ollama @ localhost:11434 · offline · index failed");
}

#[test]
fn index_labels() {
    let mut s = state();
    assert_eq!(s.index_label(), "Index not built yet");
    s.index_status = IndexStatus::Building { done: 1, total: 2 };
    assert_eq!(s.index_label(), "Indexing 1/2…");
    s.index_status = IndexStatus::Building { done: 0, total: 0 };
    assert_eq!(s.index_label(), "Indexing…");
    s.index_status = IndexStatus::Ready { chunks: 7 };
    assert_eq!(s.index_label(), "Index ready · 7 chunks");
    s.index_status = IndexStatus::Failed("disk".into());
    assert_eq!(s.index_label(), "Index failed: disk");
}

#[test]
fn answer_and_sources_texts() {
    let e = ChatEntry { role: Role::Assistant, content: String::new(), sources: vec![] };
    assert_eq!(answer_text(&e, true), "…");
    assert_eq!(answer_text(&e, false), "");
    let e = ChatEntry { role: Role::Assistant, content: "hi".into(), sources: vec![] };
    assert_eq!(answer_text(&e, true), "hi");
    assert_eq!(sources_caption(&vec![]), None);
    assert_eq!(
        sources_caption(&vec!["a.md".into(), "b.md > X".into()]),
        Some("Sources: a.md · b.md > X".to_string())
    );
}

fn hit(source: &str, heading: &str, text: &str) -> Chunk {
    Chunk { source: source.into(), heading_path: heading.into(), text: text.into() }
}

#[test]
fn grounding_without_hits() {
    let g = ground(&vec![]);
    assert_eq!(g.system, SYSTEM_PROMPT);
    assert!(g.sources.is_none());
}

#[test]
fn grounding_with_hits() {
    let hits = vec![
        hit("a.md", "Intro", "[a.md > Intro]\nA"),
        hit("b.txt", "", "[b.txt]\nB"),
        hit("a.md", "Intro", "[a.md > Intro]\nA2"),
    ];
    let g = ground(&hits);
    let expected = format!(
        "{}\n\nDocumentation context:\n\n[a.md > Intro]\nA\n\n[b.txt]\nB\n\n[a.md > Intro]\nA2\n",
        SYSTEM_PROMPT
    );
    assert_eq!(g.system, expected);
    assert_eq!(g.sources, Some(vec!["a.md > Intro".to_string(), "b.txt".to_string()]));
}

#[test]
fn request_messages_order() {
    let history = vec![ChatMessage::new("user", "q1"), ChatMessage::new("assistant", "a1")];
    let msgs = chat_messages("sys", history, "q2");
    let roles: Vec<&str> = msgs.iter().map(|m| m.role.as_str()).collect();
    assert_eq!(roles, vec!["system", "user", "assistant", "user"]);
    assert_eq!(msgs[0].content, "sys");
    assert_eq!(msgs[3].content, "q2");
}

#[test]
fn system_prompt_mentions_citation_format() {
    assert!(SYSTEM_PROMPT.contains("[source: file.md > heading]"));
}

#[test]
fn reply_events() {
    match reply_event(Some(Ok("tok".to_string()))) {
        ChatEvent::Token(t) => assert_eq!(t, "tok"),
        other => panic!("unexpected {:?}", other),
    }
    match reply_event(Some(Err(OllamaError::Other("x".into())))) {
        ChatEvent::Failed(m) => assert_eq!(m, "Ollama error: x"),
        other => panic!("unexpected {:?}", other),
    }
    assert!(matches!(reply_event(None), ChatEvent::Done));
    match failed_event(&OllamaError::ModelMissing("m".into())) {
        ChatEvent::Failed(m) => assert_eq!(m, "Model 'm' is not installed. Run: ollama pull m"),
        other => panic!("unexpected {:?}", other),
    }
}
