use ncos_assistant::config::AssistantConfig;
use ncos_assistant::rag::chunker::{chunk_markdown, Chunk};
use ncos_assistant::rag::index::{
    is_current_format, same_files, FileTable, IndexSummary, INDEX_FORMAT_VERSION,
};
use ncos_assistant::rag::{
    chunk_file, collect_chunks, is_indexable, needs_rebuild, save_failed, source_for, IndexBuild,
    EMBED_BATCH,
};

#[test]
fn indexable_extensions() {
    assert!(is_indexable("/docs/a.md"));
    assert!(is_indexable("/docs/B.MD"));
    assert!(is_indexable("/docs/c.Markdown"));
    assert!(is_indexable("/docs/notes.txt"));
    assert!(!is_indexable("/docs/image.png"));
    assert!(!is_indexable("/docs/README"));
    assert!(!is_indexable("/docs/.md"));
}

#[test]
fn source_is_relative_to_first_matching_root() {
    let roots = vec!["/usr/share/docs".to_string(), "/home/me/wiki".to_string()];
    assert_eq!(source_for("/home/me/wiki/net/wifi.md", &roots), "net/wifi.md");
    assert_eq!(source_for("/usr/share/docs/a.md", &roots), "a.md");
    assert_eq!(source_for("/elsewhere/x.md", &roots), "/elsewhere/x.md");
    assert_eq!(source_for("/usr/share/docsx/a.md", &roots), "/usr/share/docsx/a.md");
}

#[test]
fn txt_files_use_plaintext_chunking() {
    let roots = vec!["/d".to_string()];
    let chunks = chunk_file("/d/n.TXT", &roots, "# not heading\nbody\n");
    assert_eq!(chunks.len(), 1);
    assert_eq!(chunks[0].source, "n.TXT");
    assert_eq!(chunks[0].text, "[n.TXT]\n# not heading\nbody");
    let md = chunk_file("/d/n.md", &roots, "# Title\nbody\n");
    assert_eq!(md[0].heading_path, "Title");
}

#[test]
fn unreadable_files_give_no_chunks() {
    let roots = vec!["/d".to_string()];
    let files = table(&[("/d/c.txt", 3), ("/d/a.md", 1), ("/d/b.md", 2)]);
    let contents = vec![Some("alpha\n".to_string()), None, Some("gamma".to_string())];
    let chunks = collect_chunks(&files, &contents, &roots);
    let texts: Vec<&str> = chunks.iter().map(|c| c.text.as_str()).collect();
    assert_eq!(texts, vec!["[a.md]\nalpha", "[c.txt]\ngamma"]);
}

fn table(entries: &[(&str, u64)]) -> FileTable {
    let mut t = FileTable::new();
    for (p, m) in entries {
        t.insert(p.to_string(), *m);
    }
    t
}

fn summary(model: &str, files: FileTable) -> IndexSummary {
    IndexSummary { embed_model: model.to_string(), files, chunks: 3 }
}

#[test]
fn rebuild_decisions() {
    let cfg = AssistantConfig::default();
    let files = table(&[("/d/a.md", 10)]);
    assert!(needs_rebuild(None, &cfg, &files));
    let same = summary("nomic-embed-text", files.clone());
    assert!(!needs_rebuild(Some(&same), &cfg, &files));
    let other_model = summary("embeddinggemma:300m", files.clone());
    assert!(needs_rebuild(Some(&other_model), &cfg, &files));
    let touched = table(&[("/d/a.md", 11)]);
    assert!(needs_rebuild(Some(&same), &cfg, &touched));
    assert!(!same_files(&files, &touched));
    assert!(same_files(&files, &files.clone()));
}

#[test]
fn index_format_version() {
    assert!(is_current_format(INDEX_FORMAT_VERSION));
    assert!(!is_current_format(INDEX_FORMAT_VERSION + 1));
}

#[test]
fn build_without_chunks_fails_naming_folders() {
    let paths = vec!["/a".to_string(), "/b".to_string()];
    match IndexBuild::start(Vec::new(), &paths) {
        Err(msg) => assert_eq!(msg, "No .md or .txt files found in: /a, /b"),
        Ok(_) => panic!("expected failure"),
    }
}

fn chunks(n: usize) -> Vec<Chunk> {
    (0..n)
        .map(|i| Chunk { source: "s".into(), heading_path: String::new(), text: format!("t{i}") })
        .collect()
}

#[test]
fn build_goes_batch_by_batch() {
    let mut b = IndexBuild::start(chunks(20), &vec![]).ok().unwrap();
    assert_eq!(b.total(), 20);
    let first = b.next_batch().unwrap();
    assert_eq!(first.len(), EMBED_BATCH);
    assert_eq!(first[0].text, "t0");
    assert_eq!(b.on_embedded(16), Ok((16, 20)));
    let second = b.next_batch().unwrap();
    assert_eq!(second.len(), 4);
    assert_eq!(second[0].text, "t16");
    assert_eq!(b.on_embedded(4), Ok((20, 20)));
    assert!(b.next_batch().is_none());
    assert_eq!(b.done(), 20);
}

#[test]
fn build_fails_on_count_mismatch() {
    let mut b = IndexBuild::start(chunks(3), &vec![]).ok().unwrap();
    assert!(b.next_batch().is_some());
    assert_eq!(b.on_embedded(2), Err("embedding count mismatch".to_string()));
    assert_eq!(b.done(), 0);
}

#[test]
fn save_failure_message() {
    assert_eq!(save_failed("disk full"), "failed to save index: disk full");
}

#[test]
fn chunk_markdown_is_reexported_for_files() {
    let c = chunk_markdown("x.md", "text\n");
    assert_eq!(c.len(), 1);
}

#[test]
fn contents_past_the_end_count_as_unreadable() {
    let roots = vec!["/d".to_string()];
    let files = table(&[("/d/a.md", 1), ("/d/b.md", 2)]);
    let chunks = collect_chunks(&files, &vec![Some("alpha".to_string())], &roots);
    assert_eq!(chunks.len(), 1);
    assert_eq!(chunks[0].text, "[a.md]\nalpha");
}

#[test]
fn file_table_keeps_paths_ascending_and_unique() {
    let mut t = FileTable::new();
    t.insert("/d/b.md".to_string(), 2);
    t.insert("/d/a.md".to_string(), 1);
    t.insert("/d/c.md".to_string(), 3);
    t.insert("/d/b.md".to_string(), 9);
    let e: Vec<(&str, u64)> = t.entries().iter().map(|(p, m)| (p.as_str(), *m)).collect();
    assert_eq!(e, vec![("/d/a.md", 1), ("/d/b.md", 9), ("/d/c.md", 3)]);
    assert_eq!(t.len(), 3);
    let mut u = FileTable::new();
    u.insert("/d/\u{e9}.md".to_string(), 1);
    u.insert("/d/z.md".to_string(), 1);
    u.insert("/d/Z.md".to_string(), 1);
    let order: Vec<&str> = u.entries().iter().map(|(p, _)| p.as_str()).collect();
    assert_eq!(order, vec!["/d/Z.md", "/d/z.md", "/d/\u{e9}.md"]);
}

#[test]
fn file_tables_compare_by_content() {
    let a = table(&[("/d/a.md", 1), ("/d/b.md", 2)]);
    let b = table(&[("/d/b.md", 2), ("/d/a.md", 1)]);
    assert!(same_files(&a, &b));
    assert!(same_files(&a, &a.clone()));
    assert!(!same_files(&a, &table(&[("/d/a.md", 1)])));
    assert!(!same_files(&a, &table(&[("/d/a.md", 1), ("/d/c.md", 2)])));
}
