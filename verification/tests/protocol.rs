use ncos_assistant::ollama::{
    on_stream_line, status_error, stream_line, ChatChunk, ChatMessage, LineBuffer, OllamaClient,
    OllamaError,
};

#[test]
fn chat_message_new_sets_fields() {
    let m = ChatMessage::new("user", "Say hello in one word.");
    assert_eq!(m.role, "user");
    assert_eq!(m.content, "Say hello in one word.");
}

#[test]
fn client_adds_http_scheme() {
    let c = OllamaClient::new("localhost", 11434);
    assert_eq!(c.base(), "http://localhost:11434");
    assert_eq!(c.chat_url(), "http://localhost:11434/api/chat");
    assert_eq!(c.embed_url(), "http://localhost:11434/api/embed");
    assert_eq!(c.version_url(), "http://localhost:11434/api/version");
}

#[test]
fn client_keeps_scheme_and_drops_trailing_slashes() {
    assert_eq!(OllamaClient::new("https://gpu.lan//", 8080).base(), "https://gpu.lan:8080");
    assert_eq!(OllamaClient::new("http://10.0.0.2/", 7).base(), "http://10.0.0.2:7");
    assert_eq!(OllamaClient::new("box/", 0).base(), "http://box:0");
}

#[test]
fn error_messages() {
    assert_eq!(
        OllamaError::Unreachable("http://h:1".into()).message(),
        "Can't reach Ollama at http://h:1. Start it with: systemctl enable --now ollama"
    );
    assert_eq!(
        OllamaError::ModelMissing("qwen3:4b".into()).message(),
        "Model 'qwen3:4b' is not installed. Run: ollama pull qwen3:4b"
    );
    assert_eq!(OllamaError::Other("boom".into()).message(), "Ollama error: boom");
}

#[test]
fn send_error_classification() {
    let c = OllamaClient::new("localhost", 11434);
    match c.send_error(true, "x".into()) {
        OllamaError::Unreachable(u) => assert_eq!(u, "http://localhost:11434"),
        other => panic!("unexpected {:?}", other),
    }
    match c.send_error(false, "bad".into()) {
        OllamaError::Other(d) => assert_eq!(d, "bad"),
        other => panic!("unexpected {:?}", other),
    }
}

#[test]
fn status_error_missing_model() {
    match status_error(404, Some("model \"x\" not found".into()), "{}".into(), "x") {
        OllamaError::ModelMissing(m) => assert_eq!(m, "x"),
        other => panic!("unexpected {:?}", other),
    }
}

#[test]
fn status_error_uses_body_without_json_error() {
    match status_error(500, None, "internal".into(), "m") {
        OllamaError::Other(d) => assert_eq!(d, "internal"),
        other => panic!("unexpected {:?}", other),
    }
    match status_error(404, None, "page missing".into(), "m") {
        OllamaError::Other(d) => assert_eq!(d, "page missing"),
        other => panic!("unexpected {:?}", other),
    }
}

#[test]
fn line_buffer_holds_partial_lines() {
    let mut b = LineBuffer::new();
    let l1 = b.feed(b"{\"a\":1}\n{\"b\"");
    assert_eq!(l1, vec![b"{\"a\":1}\n".to_vec()]);
    let l2 = b.feed(b":2}\n\n");
    assert_eq!(l2, vec![b"{\"b\":2}\n".to_vec(), b"\n".to_vec()]);
    assert!(b.feed(b"").is_empty());
}

#[test]
fn stream_line_trims_and_skips_blank() {
    assert_eq!(stream_line(&b"  {\"x\":1} \r\n".to_vec()), Some("{\"x\":1}".to_string()));
    assert_eq!(stream_line(&b" \n".to_vec()), None);
}

#[test]
fn stream_line_replaces_invalid_utf8() {
    assert_eq!(stream_line(&vec![b'a', 0xff, b'b', b'\n']), Some("a\u{fffd}b".to_string()));
}

#[test]
fn stream_step_content_and_done() {
    let step = on_stream_line(Ok(ChatChunk {
        message: Some(ChatMessage::new("assistant", "Hi")),
        done: false,
        error: None,
    }));
    assert!(!step.finished);
    assert_eq!(step.item.unwrap().unwrap(), "Hi");
    let step = on_stream_line(Ok(ChatChunk {
        message: Some(ChatMessage::new("assistant", "")),
        done: true,
        error: None,
    }));
    assert!(step.finished);
    assert!(step.item.is_none());
}

#[test]
fn stream_step_errors_end_stream() {
    let step = on_stream_line(Ok(ChatChunk { message: None, done: false, error: Some("oops".into()) }));
    assert!(step.finished);
    match step.item {
        Some(Err(OllamaError::Other(e))) => assert_eq!(e, "oops"),
        other => panic!("unexpected {:?}", other),
    }
    let step = on_stream_line(Err("expected value".into()));
    assert!(step.finished);
    match step.item {
        Some(Err(OllamaError::Other(e))) => assert_eq!(e, "bad response line: expected value"),
        other => panic!("unexpected {:?}", other),
    }
}
