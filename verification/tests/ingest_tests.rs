use cos_engine::ingest::{
    chunk_markdown, classify_entry, discover, hex_digest, normalize_rel, sha256, title_of,
    walk_vault, EntryKind, FoundFile,
};

const FIXTURE: &str = "# The Silent Failure Incident\n\nA PGlite-backed brain grew to 7.1 GB, exceeded an in-memory WASM heap, and every\nimport failed for 2.5 months.\n\nThis engine treats silent no-op success as a bug class of its own.\n";

#[test]
fn sha256_of_empty_text() {
    assert_eq!(
        sha256(""),
        "e3b0c44298fc1c149afbf4c8996fb92427ae41e4649b934ca495991b7852b855"
    );
}

#[test]
fn sha256_of_abc() {
    assert_eq!(
        sha256("abc"),
        "ba7816bf8f01cfea414140de5dae2223b00361a396177a9cb410ff61f20015ad"
    );
}

#[test]
fn sha256_hashes_utf8_bytes() {
    // "é" is the two bytes c3 a9.
    let h = sha256("é");
    assert_eq!(h.len(), 64);
    assert_ne!(h, sha256("e"));
    assert!(h.chars().all(|c| c.is_ascii_hexdigit() && !c.is_ascii_uppercase()));
}

#[test]
fn hex_digest_is_lower_case_two_digits_per_byte() {
    assert_eq!(hex_digest(&[0x0a, 0x14, 0x1e]), "0a141e");
    assert_eq!(hex_digest(&[0x00, 0xff, 0xab]), "00ffab");
    assert_eq!(hex_digest(&[]), "");
}

#[test]
fn chunk_fixture_is_one_chunk() {
    let chunks = chunk_markdown(FIXTURE);
    assert_eq!(chunks, vec![FIXTURE.trim().to_string()]);
}

#[test]
fn chunk_splits_at_second_level_headings() {
    let body = "# Title\nintro\n## One\nfirst\n## Two\nsecond\n";
    let chunks = chunk_markdown(body);
    assert_eq!(
        chunks,
        vec![
            "# Title\nintro".to_string(),
            "## One\nfirst".to_string(),
            "## Two\nsecond".to_string()
        ]
    );
}

#[test]
fn chunk_heading_without_content_before_does_not_split() {
    let body = "\n  \n## One\nfirst\n";
    assert_eq!(chunk_markdown(body), vec!["## One\nfirst".to_string()]);
}

#[test]
fn chunk_heading_needs_the_space() {
    let body = "intro\n##Not a heading\nmore\n";
    assert_eq!(
        chunk_markdown(body),
        vec!["intro\n##Not a heading\nmore".to_string()]
    );
}

#[test]
fn chunk_of_empty_body_is_one_empty_chunk() {
    assert_eq!(chunk_markdown(""), vec![String::new()]);
    assert_eq!(chunk_markdown("  \n \t\n"), vec![String::new()]);
}

#[test]
fn chunk_handles_crlf_lines() {
    let body = "a\r\n## b\r\nc\r\n";
    assert_eq!(chunk_markdown(body), vec!["a".to_string(), "## b\nc".to_string()]);
}

#[test]
fn chunk_closes_over_3000_bytes() {
    let line = "x".repeat(1000);
    let body = format!("{line}\n{line}\n{line}\n{line}\n");
    let chunks = chunk_markdown(&body);
    // 1001 + 1001 + 1001 bytes is over the limit after the third line.
    assert_eq!(chunks.len(), 2);
    assert_eq!(chunks[0], format!("{line}\n{line}\n{line}"));
    assert_eq!(chunks[1], line);
}

#[test]
fn chunk_limit_counts_bytes_not_chars() {
    // 1000 two-byte characters are 2000 bytes; two such lines are over 3000.
    let line = "é".repeat(1000);
    let body = format!("{line}\n{line}\n{line}\n");
    let chunks = chunk_markdown(&body);
    assert_eq!(chunks.len(), 2);
    assert_eq!(chunks[0], format!("{line}\n{line}"));
    assert_eq!(chunks[1], line);
}

#[test]
fn chunks_are_trimmed_law() {
    for body in ["  a  \n## b  \n  c", "\u{3000}x\u{3000}", "\t\n## h\n\n"] {
        for c in chunk_markdown(body) {
            assert_eq!(c.trim(), c);
        }
    }
}

#[test]
fn title_from_first_heading() {
    assert_eq!(title_of(FIXTURE, "silent-failure.md"), "The Silent Failure Incident");
    assert_eq!(title_of("text\n   #   Spaced  \n# Later", "x.md"), "Spaced");
}

#[test]
fn title_falls_back_to_file_stem() {
    assert_eq!(title_of("no heading\n## sub", "notes/silent-failure.md"), "silent-failure");
    assert_eq!(title_of("", "notes/archive.tar.md"), "archive.tar");
    assert_eq!(title_of("#not", ".hidden"), ".hidden");
    assert_eq!(title_of("", "dir/plain"), "plain");
}

#[test]
fn title_falls_back_to_rel_without_file_name() {
    assert_eq!(title_of("", ".."), "..");
    assert_eq!(title_of("", ""), "");
}

#[test]
fn classify_entries() {
    assert_eq!(classify_entry(".obsidian", true), EntryKind::Skip);
    assert_eq!(classify_entry(".note.md", false), EntryKind::Skip);
    assert_eq!(classify_entry("gbrain", true), EntryKind::Skip);
    assert_eq!(classify_entry("notes", true), EntryKind::Descend);
    assert_eq!(classify_entry("a.md", false), EntryKind::Markdown);
    assert_eq!(classify_entry("a.txt", false), EntryKind::Skip);
    assert_eq!(classify_entry("md", false), EntryKind::Skip);
    assert_eq!(classify_entry("a.MD", false), EntryKind::Skip);
    assert_eq!(classify_entry("b.tar.md", false), EntryKind::Markdown);
}

#[test]
fn normalize_rel_uses_forward_slashes() {
    assert_eq!(normalize_rel("a\\b\\c.md"), "a/b/c.md");
    assert_eq!(normalize_rel("a/b.md"), "a/b.md");
}

#[test]
fn discover_computes_title_hash_chunks() {
    let d = discover(
        "/v/silent-failure.md".to_string(),
        "silent-failure.md".to_string(),
        FIXTURE.to_string(),
        42,
    );
    assert_eq!(d.title, "The Silent Failure Incident");
    assert_eq!(d.hash, sha256(FIXTURE));
    assert_eq!(d.chunks, chunk_markdown(FIXTURE));
    assert_eq!(d.mtime, 42);
    assert_eq!(d.rel, "silent-failure.md");
}

fn found(rel: &str, body: &str) -> FoundFile {
    FoundFile {
        path: format!("/v/{rel}"),
        rel: rel.to_string(),
        body: body.to_string(),
        mtime: 1,
    }
}

#[test]
fn walk_vault_orders_by_relative_path() {
    let out = walk_vault(vec![
        found("b.md", "# B"),
        found("a\\z.md", "# AZ"),
        found("a.md", "# A"),
        found("B.md", "# Upper"),
    ]);
    let rels: Vec<&str> = out.iter().map(|d| d.rel.as_str()).collect();
    assert_eq!(rels, vec!["B.md", "a.md", "a/z.md", "b.md"]);
    let titles: Vec<&str> = out.iter().map(|d| d.title.as_str()).collect();
    assert_eq!(titles, vec!["Upper", "A", "AZ", "B"]);
}

#[test]
fn walk_vault_of_nothing_is_empty() {
    assert!(walk_vault(Vec::new()).is_empty());
}

#[test]
fn walk_vault_keeps_order_of_equal_paths() {
    let out = walk_vault(vec![
        found("same.md", "# First"),
        found("a.md", "# A"),
        found("same.md", "# Second"),
    ]);
    let titles: Vec<&str> = out.iter().map(|d| d.title.as_str()).collect();
    assert_eq!(titles, vec!["A", "First", "Second"]);
}
