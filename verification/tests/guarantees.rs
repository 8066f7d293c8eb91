use ncos_assistant::app::ChatEvent;
use ncos_assistant::chat::{
    after_item, after_request, after_retrieval, turn_retrieves_exec, TurnAction, SYSTEM_PROMPT,
};
use ncos_assistant::ollama::{on_transport_error, ChatMessage, LineBuffer, OllamaError};
use ncos_assistant::rag::chunker::{chunk_markdown, chunk_plaintext, Chunk};
use ncos_assistant::rag::index::{text_less, FileTable, IndexSummary};
use ncos_assistant::rag::{
    first_stripped, is_indexable, is_indexable_extension, is_plaintext_file_extension,
    query_vector_index, saved_event, IndexBuild, IndexEvent,
};

#[test]
fn indexable_extension_ignores_ascii_case() {
    assert!(is_indexable_extension(Some("md")));
    assert!(is_indexable_extension(Some("MarkDown")));
    assert!(is_indexable_extension(Some("TXT")));
    assert!(!is_indexable_extension(Some("rst")));
    assert!(!is_indexable_extension(Some("")));
    assert!(!is_indexable_extension(None));
    assert!(is_plaintext_file_extension(Some("Txt")));
    assert!(!is_plaintext_file_extension(Some("md")));
    assert!(!is_plaintext_file_extension(None));
}

#[test]
fn first_stripped_takes_first_root_that_matched() {
    let none: Vec<Option<String>> = vec![None, None];
    assert_eq!(first_stripped("/x/a.md", &none), "/x/a.md");
    let some = vec![None, Some("a.md".to_string()), Some("x/a.md".to_string())];
    assert_eq!(first_stripped("/x/a.md", &some), "a.md");
    assert_eq!(first_stripped("/x/a.md", &vec![]), "/x/a.md");
}

fn chunks(n: usize) -> Vec<Chunk> {
    (0..n)
        .map(|i| Chunk { source: "s".into(), heading_path: String::new(), text: format!("t{i}") })
        .collect()
}

fn progress(ev: &IndexEvent) -> Option<(usize, usize)> {
    match ev {
        IndexEvent::Progress { done, total } => Some((*done, *total)),
        _ => None,
    }
}

#[test]
fn build_events_of_a_successful_run() {
    let mut b = IndexBuild::start(chunks(20), &vec![]).ok().unwrap();
    let mut events = vec![b.progress_event()];
    while let Some(batch) = b.next_batch() {
        events.push(b.record(Ok(batch.len())));
    }
    let steps: Vec<Option<(usize, usize)>> = events.iter().map(progress).collect();
    assert_eq!(steps, vec![Some((0, 20)), Some((16, 20)), Some((20, 20))]);
    let summary = IndexSummary { embed_model: "m".into(), files: FileTable::new(), chunks: 20 };
    assert!(matches!(saved_event(Ok(summary)), IndexEvent::Finished(s) if s.chunks == 20));
}

#[test]
fn build_events_end_with_one_failure() {
    let mut b = IndexBuild::start(chunks(40), &vec![]).ok().unwrap();
    assert!(b.next_batch().is_some());
    assert_eq!(progress(&b.record(Ok(16))), Some((16, 40)));
    assert!(b.next_batch().is_some());
    match b.record(Err(OllamaError::Other("boom".into()))) {
        IndexEvent::Failed(msg) => assert_eq!(msg, "Ollama error: boom"),
        other => panic!("unexpected {:?}", other),
    }
    assert_eq!(b.done(), 16);
    let mut c = IndexBuild::start(chunks(3), &vec![]).ok().unwrap();
    assert!(c.next_batch().is_some());
    match c.record(Ok(1)) {
        IndexEvent::Failed(msg) => assert_eq!(msg, "embedding count mismatch"),
        other => panic!("unexpected {:?}", other),
    }
    match saved_event(Err("disk full".into())) {
        IndexEvent::Failed(msg) => assert_eq!(msg, "failed to save index: disk full"),
        other => panic!("unexpected {:?}", other),
    }
}

#[test]
fn transport_error_ends_the_reply() {
    let step = on_transport_error("connection reset".into());
    assert!(step.finished);
    match step.item {
        Some(Err(OllamaError::Other(d))) => assert_eq!(d, "connection reset"),
        other => panic!("unexpected {:?}", other),
    }
}

#[test]
fn feeding_in_pieces_gives_the_lines_of_the_whole() {
    let reply: &[u8] = b"{\"a\":1}\n{\"b\":2}\n\n{\"c\"";
    let mut whole = LineBuffer::new();
    let all = whole.feed(reply);
    for cut in [1usize, 3, 7, 8, 12] {
        let mut b = LineBuffer::new();
        let mut lines = Vec::new();
        for piece in reply.chunks(cut) {
            lines.extend(b.feed(piece));
        }
        assert_eq!(lines, all);
        assert_eq!(b.feed(b"}\n"), vec![b"{\"c\"}\n".to_vec()]);
    }
}

#[test]
fn plaintext_bodies_rejoin_to_trimmed_content() {
    let para = |c: char| std::iter::repeat(c).take(700).collect::<String>();
    let content = format!("\n  {}\n\n{}\n\n{}\n\nshort  \n", para('a'), para('b'), para('c'));
    let result = chunk_plaintext("f.txt", &content);
    assert!(result.len() > 1);
    let bodies: Vec<&str> = result
        .iter()
        .map(|c| {
            assert_eq!(c.source, "f.txt");
            assert_eq!(c.heading_path, "");
            c.text.strip_prefix("[f.txt]\n").unwrap()
        })
        .collect();
    assert_eq!(bodies.join("\n\n"), content.trim());
}

#[test]
fn long_sections_split_into_non_empty_parts() {
    let para = |c: char| std::iter::repeat(c).take(900).collect::<String>();
    let content = format!("# Big\n{}\n\n{}\n\n{}\n", para('x'), para('y'), para('z'));
    let result = chunk_markdown("big.md", &content);
    assert_eq!(result.len(), 3);
    for c in &result {
        let body = c.text.strip_prefix("[big.md > Big]\n").unwrap();
        assert!(!body.is_empty());
    }
    let short = chunk_markdown("s.md", "# S\nbody one\n\nbody two\n");
    assert_eq!(short.len(), 1);
    assert_eq!(short[0].text, "[s.md > S]\nbody one\n\nbody two");
}

#[test]
fn text_order_is_code_point_order() {
    let v = |t: &str| t.chars().collect::<Vec<char>>();
    assert!(text_less(&v("a"), &v("b")));
    assert!(text_less(&v("ab"), &v("abc")));
    assert!(!text_less(&v("abc"), &v("ab")));
    assert!(!text_less(&v("same"), &v("same")));
    assert!(text_less(&v("Z"), &v("a")));
    assert!(text_less(&v("z"), &v("\u{e9}")));
    assert!(text_less(&v(""), &v("a")));
}


#[test]
fn turn_retrieves_only_with_indexed_chunks() {
    assert!(!turn_retrieves_exec(None));
    assert!(!turn_retrieves_exec(Some(0)));
    assert!(turn_retrieves_exec(Some(3)));
}

#[test]
fn failed_retrieval_ends_the_turn_without_a_request() {
    let step = after_retrieval(
        Err(OllamaError::Unreachable("http://localhost:11434".into())),
        vec![],
        "hi",
    );
    assert!(matches!(step.next, TurnAction::Stop));
    assert_eq!(step.events.len(), 1);
    match &step.events[0] {
        ChatEvent::Failed(m) => assert_eq!(
            m,
            "Can't reach Ollama at http://localhost:11434. Start it with: systemctl enable --now ollama"
        ),
        other => panic!("unexpected {:?}", other),
    }
}

#[test]
fn retrieval_reports_sources_then_asks() {
    let hits = vec![
        Chunk { source: "a.md".into(), heading_path: "Net".into(), text: "[a.md > Net]\nx".into() },
        Chunk { source: "a.md".into(), heading_path: "Net".into(), text: "[a.md > Net]\ny".into() },
        Chunk { source: "b.txt".into(), heading_path: String::new(), text: "[b.txt]\nz".into() },
    ];
    let history = vec![ChatMessage::new("user", "before"), ChatMessage::new("assistant", "ok")];
    let step = after_retrieval(Ok(hits), history, "now?");
    match &step.events[..] {
        [ChatEvent::Sources(s)] => assert_eq!(s, &vec!["a.md > Net".to_string(), "b.txt".to_string()]),
        other => panic!("unexpected {:?}", other),
    }
    match step.next {
        TurnAction::Ask(m) => {
            assert_eq!(m.len(), 4);
            assert_eq!(m[0].role, "system");
            assert!(m[0].content.starts_with(SYSTEM_PROMPT));
            assert!(m[0].content.ends_with("\n[b.txt]\nz\n"));
            assert_eq!(m[1].content, "before");
            assert_eq!(m[3].role, "user");
            assert_eq!(m[3].content, "now?");
        }
        other => panic!("unexpected {:?}", other),
    }
    let bare = after_retrieval(Ok(vec![]), vec![], "q");
    assert!(bare.events.is_empty());
    match bare.next {
        TurnAction::Ask(m) => assert_eq!(m[0].content, SYSTEM_PROMPT),
        other => panic!("unexpected {:?}", other),
    }
}

#[test]
fn reply_items_stream_until_the_first_non_text() {
    let sent = after_request(Ok(()));
    assert!(sent.events.is_empty());
    assert!(matches!(sent.next, TurnAction::ReadReply));
    let refused = after_request(Err(OllamaError::ModelMissing("llama3".into())));
    assert!(matches!(refused.next, TurnAction::Stop));
    assert!(matches!(&refused.events[..], [ChatEvent::Failed(_)]));
    let t = after_item(Some(Ok("Hel".into())));
    assert!(matches!(t.next, TurnAction::ReadReply));
    assert!(matches!(&t.events[..], [ChatEvent::Token(x)] if x == "Hel"));
    let e = after_item(Some(Err(OllamaError::Other("bad".into()))));
    assert!(matches!(e.next, TurnAction::Stop));
    assert!(matches!(&e.events[..], [ChatEvent::Failed(m)] if m == "Ollama error: bad"));
    let d = after_item(None);
    assert!(matches!(d.next, TurnAction::Stop));
    assert!(matches!(&d.events[..], [ChatEvent::Done]));
}

#[test]
fn finished_build_summarises_the_index() {
    let mut files = FileTable::new();
    files.insert("/d/a.md".into(), 7);
    let mut b = IndexBuild::start(chunks(18), &vec![]).ok().unwrap();
    assert!(b.finished_summary("m", FileTable::new()).is_none());
    while let Some(batch) = b.next_batch() {
        b.record(Ok(batch.len()));
    }
    let s = b.finished_summary("nomic-embed-text", files).unwrap();
    assert_eq!(s.embed_model, "nomic-embed-text");
    assert_eq!(s.chunks, 18);
    assert_eq!(s.files.len(), 1);
    assert_eq!(s.files.entries()[0], ("/d/a.md".to_string(), 7));
}

#[test]
fn query_embedding_is_the_last_vector() {
    assert_eq!(query_vector_index(1).ok(), Some(0));
    assert_eq!(query_vector_index(3).ok(), Some(2));
    match query_vector_index(0) {
        Err(OllamaError::Other(m)) => assert_eq!(m, "empty embedding response"),
        other => panic!("unexpected {:?}", other),
    }
}

#[test]
fn extension_follows_path_components() {
    assert!(is_indexable("/docs/a.md/"));
    assert!(is_indexable("/docs/a.md/."));
    assert!(is_indexable("docs//guide.TXT"));
    assert!(is_indexable("/docs/..md"));
    assert!(is_indexable("/docs/.hidden.md"));
    assert!(!is_indexable("/docs/.md"));
    assert!(!is_indexable("/docs/a.md/.."));
    assert!(!is_indexable("/"));
    assert!(!is_indexable(""));
    assert!(!is_indexable("/docs/a.md.bak"));
    assert!(!is_indexable("/docs/notes."));
}
