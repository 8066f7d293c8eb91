use ncos_assistant::rag::chunker;

#[test]
fn chunker_splits_on_headings() {
    let md = "# Title\n\nIntro text long enough to stand alone. Lorem ipsum dolor sit amet, \
        consectetur adipiscing elit, sed do eiusmod tempor incididunt ut labore et dolore \
        magna aliqua. Ut enim ad minim veniam, quis nostrud exercitation ullamco.\n\n\
        ## Updating\n\nRun pacman -Syu to update the whole system. Partial upgrades are \
        unsupported on Arch-based systems, so never install packages after a bare -Sy \
        without doing the full system upgrade first. Reboot after kernel updates land.\n";
    let chunks = chunker::chunk_markdown("test.md", md);
    assert!(chunks.len() >= 2, "expected >=2 chunks, got {}", chunks.len());
    assert_eq!(chunks[0].heading_path, "Title");
    assert_eq!(chunks[1].heading_path, "Title > Updating");
    assert!(chunks[1].text.contains("pacman -Syu"));
}
