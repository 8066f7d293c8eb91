use ncos_assistant::rag::chunker::{chunk_markdown, chunk_plaintext, MAX_CHUNK_CHARS};

fn long_sentence(n: usize) -> String {
    "word ".repeat(n)
}

#[test]
fn markdown_small_section_merges_into_previous() {
    let body = long_sentence(50);
    let md = format!("# Intro\n\n{}\n\n## Tiny\n\nshort text\n", body);
    let chunks = chunk_markdown("guide.md", &md);
    assert_eq!(chunks.len(), 1);
    assert_eq!(chunks[0].source, "guide.md");
    assert_eq!(chunks[0].heading_path, "Intro");
    let expected = format!("[guide.md > Intro]\n{}\n\n## Intro > Tiny\nshort text", body.trim());
    assert_eq!(chunks[0].text, expected);
}

#[test]
fn markdown_first_small_section_stands_alone() {
    let chunks = chunk_markdown("a.md", "hello\n");
    assert_eq!(chunks.len(), 1);
    assert_eq!(chunks[0].heading_path, "");
    assert_eq!(chunks[0].text, "[a.md]\nhello");
}

#[test]
fn markdown_headings_in_fences_are_ignored() {
    let body = long_sentence(50);
    let md = format!("# Setup\n\n{}\n```\n# not a heading\n```\n", body);
    let chunks = chunk_markdown("s.md", &md);
    assert_eq!(chunks.len(), 1);
    assert_eq!(chunks[0].heading_path, "Setup");
    assert!(chunks[0].text.contains("# not a heading"));
}

#[test]
fn markdown_deeper_headings_stay_in_body() {
    let body = long_sentence(50);
    let md = format!("# A\n\n{}\n#### Deep\nmore\n", body);
    let chunks = chunk_markdown("x.md", &md);
    assert_eq!(chunks.len(), 1);
    assert!(chunks[0].text.contains("#### Deep"));
}

#[test]
fn markdown_heading_stack_pops_to_level() {
    let body = long_sentence(50);
    let md = format!("# A\n{b}\n## B\n{b}\n# C\n{b}\n", b = body);
    let chunks = chunk_markdown("x.md", &md);
    let paths: Vec<&str> = chunks.iter().map(|c| c.heading_path.as_str()).collect();
    assert_eq!(paths, vec!["A", "A > B", "C"]);
}

#[test]
fn markdown_hash_without_space_is_not_heading() {
    let chunks = chunk_markdown("x.md", "#tag line\n");
    assert_eq!(chunks.len(), 1);
    assert_eq!(chunks[0].heading_path, "");
    assert_eq!(chunks[0].text, "[x.md]\n#tag line");
}

#[test]
fn markdown_long_section_splits_at_paragraphs() {
    let para = "x".repeat(1000);
    let md = format!("# Big\n\n{p}\n\n{p}\n", p = para);
    let chunks = chunk_markdown("b.md", &md);
    assert_eq!(chunks.len(), 2);
    assert_eq!(chunks[0].text, format!("[b.md > Big]\n{}", para));
    assert_eq!(chunks[1].text, format!("[b.md > Big]\n{}", para));
    assert!(chunks.iter().all(|c| c.text.len() <= MAX_CHUNK_CHARS + 20));
}

#[test]
fn markdown_empty_document_has_no_chunks() {
    assert!(chunk_markdown("e.md", "").is_empty());
    assert!(chunk_markdown("e.md", "# Only a heading\n").is_empty());
}

#[test]
fn markdown_counts_bytes_not_chars() {
    // 100 two-byte characters: 200 bytes, so not merged although 100 chars.
    let body = "é".repeat(100);
    let md = format!("# A\n{b}\n# B\n{b}\n", b = body);
    let chunks = chunk_markdown("u.md", &md);
    assert_eq!(chunks.len(), 2);
}

#[test]
fn plaintext_whole_file_one_chunk() {
    let chunks = chunk_plaintext("notes.txt", "  some notes\n\n");
    assert_eq!(chunks.len(), 1);
    assert_eq!(chunks[0].source, "notes.txt");
    assert_eq!(chunks[0].heading_path, "");
    assert_eq!(chunks[0].text, "[notes.txt]\nsome notes");
}

#[test]
fn plaintext_blank_file_has_no_chunks() {
    assert!(chunk_plaintext("blank.txt", "  \n\t\n").is_empty());
}

#[test]
fn plaintext_long_file_is_split() {
    let para = "y".repeat(900);
    let content = format!("{p}\n\n{p}\n\n{p}", p = para);
    let chunks = chunk_plaintext("long.txt", &content);
    assert_eq!(chunks.len(), 3);
    for c in &chunks {
        assert_eq!(c.text, format!("[long.txt]\n{}", para));
    }
}
