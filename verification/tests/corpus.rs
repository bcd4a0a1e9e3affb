//! Chunking, hashing, what changed, and the catch-up scan.

use kern::chunker::{
    split_to_budget, structural_pieces, BudgetAwareMarkdownChunker, HeuristicTokenCounter,
    MarkdownChunker, MarkdownEvent, MarkdownKind, StructuralMarkdownChunker, TokenCounter,
};
use kern::frontmatter::find_frontmatter_end;
use kern::hashing::hash_content;
use kern::known::{deleted_files, is_real_change, known_hashes, IndexedFile, KnownHashes};
use kern::model::{check_status, ModelError};
use kern::offsets::Indexed;
use kern::paths::{extension, file_name, file_stem, join_path, parent, parts, parts_before, same_parts};
use kern::scan::{
    classify_entry, is_skippable, sort_paths, CatchUpScan, CatchUpSummary, ChunkResult, EntryAction,
    FilePlan, Mark,
};
use kern::watch::Watcher;

#[test]
fn hash_changes_with_different_content() {
    assert_ne!(hash_content("a"), hash_content("b"));
    assert_eq!(hash_content("a"), hash_content("a"));
}

#[test]
fn hash_is_blake3_in_lowercase_hexadecimal() {
    assert_eq!(hash_content("abc"), blake3::hash(b"abc").to_hex().to_string());
    assert_eq!(
        hash_content(""),
        "af1349b9f5f9a1a6a0404dea36dcc9499bcb25c9adc112b7cc9a93cae41f3262"
    );
}

#[test]
fn touch_without_real_change_does_not_reprocess() {
    let mut known = KnownHashes::new();
    let path = "a.md";
    let h = hash_content("content");
    known.insert(path, h);

    assert_eq!(is_real_change(path, "content", &known), None);
    assert!(is_real_change(path, "new content", &known).is_some());
}

#[test]
fn never_seen_file_counts_as_change() {
    let known = KnownHashes::new();
    let path = "new.md";
    assert!(is_real_change(path, "anything", &known).is_some());
}

#[test]
fn a_path_is_known_however_it_is_written() {
    let mut known = KnownHashes::new();
    known.insert("docs//a.md", hash_content("x"));
    assert_eq!(is_real_change("docs/./a.md", "x", &known), None);
    assert_eq!(known.get("docs/a.md/"), Some(hash_content("x")));
    known.insert("docs/a.md", hash_content("y"));
    assert_eq!(known.files.len(), 1);
    assert_eq!(known.get("docs//a.md"), Some(hash_content("y")));
    assert_eq!(known.get("a.md"), None);
}

#[test]
fn chunking_never_splits_a_code_block_or_table() {
    let content = "\
# Title

Text before.

```rust
fn f() {
    // continues
}
```

## Second section

| a | b |
|---|---|
| 1 | 2 |
";
    let chunker = StructuralMarkdownChunker;
    let chunks = chunker.chunk("doc.md", content);

    assert!(chunks.len() >= 2, "expected at least 2 chunks (2 headings)");
    for c in &chunks {
        let opens = c.content.matches("```").count();
        assert_eq!(opens % 2, 0, "code block split in half: {:?}", c.content);
    }
    let joined: String = chunks.iter().map(|c| c.content.as_str()).collect();
    assert!(joined.contains("| a | b |") && joined.contains("| 1 | 2 |"));
    assert_eq!(joined, content);
}

#[test]
fn document_without_heading_becomes_a_single_chunk() {
    let content = "Just loose text, no heading at all.\n";
    let chunker = StructuralMarkdownChunker;
    let chunks = chunker.chunk("doc.md", content);
    assert_eq!(chunks.len(), 1);
}

#[test]
fn chunks_carry_path_hash_and_their_own_ids() {
    let chunks = StructuralMarkdownChunker.chunk("docs/x.md", "# A\n\none\n\n# B\n\ntwo\n");
    assert_eq!(chunks.len(), 2);
    assert_eq!(chunks[0].content, "# A\n\none\n\n");
    assert_eq!(chunks[1].content, "# B\n\ntwo\n");
    assert_eq!(chunks[0].file_path, "docs/x.md");
    assert_eq!(chunks[1].content_hash, hash_content("# B\n\ntwo\n"));
    assert_ne!(chunks[0].id, chunks[1].id);
    assert!(chunks[0].source_original.is_none());
}

#[test]
fn a_heading_mark_inside_a_code_block_is_no_heading() {
    let content = "intro\n\n```\n# not a heading\n```\n\n# Heading é\n\nend\n";
    let chunks = StructuralMarkdownChunker.chunk("doc.md", content);
    assert_eq!(chunks.len(), 2);
    assert_eq!(chunks[0].content, "intro\n\n```\n# not a heading\n```\n\n");
    assert_eq!(chunks[1].content, "# Heading é\n\nend\n");
}

#[test]
fn an_empty_or_blank_document_has_no_chunks() {
    assert!(StructuralMarkdownChunker.chunk("doc.md", "").is_empty());
    assert!(StructuralMarkdownChunker.chunk("doc.md", " \n\t\n").is_empty());
}

#[test]
fn pieces_follow_the_events_they_are_given() {
    let heading = |start: usize, end: usize| MarkdownEvent { kind: MarkdownKind::Heading, start, end };
    let table = MarkdownEvent { kind: MarkdownKind::Table, start: 2, end: 8 };
    let text = "aaaabbbbcccc";
    assert_eq!(
        structural_pieces(text, &vec![heading(4, 5), heading(8, 9)]),
        vec!["aaaa", "bbbb", "cccc"]
    );
    // A table is not cut, whatever claims to be a heading inside it.
    assert_eq!(
        structural_pieces(text, &vec![table, heading(4, 5), heading(8, 9)]),
        vec!["aaaabbbb", "cccc"]
    );
    // An offset inside a character or beyond the end cuts nothing off.
    assert_eq!(structural_pieces("éa", &vec![heading(1, 2)]), vec!["éa"]);
    assert_eq!(structural_pieces("ab", &vec![heading(9, 10)]), vec!["ab"]);
    // Nor does one before an earlier cut.
    assert_eq!(
        structural_pieces(text, &vec![heading(8, 9), heading(4, 5)]),
        vec!["aaaabbbb", "cccc"]
    );
}

#[test]
fn frontmatter_is_whole_and_in_the_first_chunk() {
    let content = "---\nid: TASK-0001\nkind: task\n---\n\n# First task\n";
    let chunks = StructuralMarkdownChunker.chunk("docs/specs/TASK-0001.md", content);
    assert_eq!(chunks.len(), 2);
    assert_eq!(chunks[0].content, "---\nid: TASK-0001\nkind: task\n---\n\n");
    assert_eq!(chunks[1].content, "# First task\n");
    // A comment in the block is no heading, and a budget does not cut it.
    let commented = "\u{feff}---\n# about\n\nid: A\n---\n# Title\n\ntext\n";
    for chunks in [
        StructuralMarkdownChunker.chunk("a.md", commented),
        BudgetAwareMarkdownChunker::new(StructuralMarkdownChunker, HeuristicTokenCounter, 1)
            .chunk("a.md", commented),
    ] {
        assert_eq!(chunks[0].content, "\u{feff}---\n# about\n\nid: A\n---\n");
        assert!(chunks[1].content.starts_with("# Title\n"));
    }
    let chars: Vec<char> = content.chars().collect();
    assert_eq!(find_frontmatter_end(&chars), 33);
    assert_eq!(find_frontmatter_end(&vec!['-', '-', '-']), 0);
}

#[test]
fn offsets_count_bytes() {
    let indexed = Indexed::new("aé€😀");
    assert_eq!(indexed.offsets, vec![0, 1, 3, 6, 10]);
    assert_eq!(indexed.position(3), Some(2));
    assert_eq!(indexed.position(2), None);
    assert_eq!(indexed.position(10), Some(4));
    assert_eq!(indexed.position(11), None);
}

#[test]
fn tokens_are_a_quarter_of_the_characters() {
    assert_eq!(HeuristicTokenCounter.count("abcdefgh"), 2);
    assert_eq!(HeuristicTokenCounter.count("ééé"), 0);
    let chars: Vec<char> = "abcdefghij".chars().collect();
    assert_eq!(HeuristicTokenCounter.reach(&chars, 1, 1), 8);
    assert_eq!(HeuristicTokenCounter.reach(&chars, 1, 2), 10);
    assert_eq!(HeuristicTokenCounter.reach(&chars, 10, 0), 10);
    assert_eq!(HeuristicTokenCounter.reach(&chars, 0, usize::MAX), 10);
}

#[test]
fn budget_aware_chunker_closes_the_context_window_bug_against_real_llama_cpp() {
    let big_section = "The kern architecture separates ingestion, embedding, and ontology \
                        concerns into distinct crates connected only through traits, so a \
                        real backend can be swapped without touching domain logic. "
        .repeat(20);
    let markdown = format!(
        "# Design Notes\n\n{big_section}\n\n# Short Section\n\nJust a short paragraph here.\n"
    );
    let budget = 64;
    let old_chunks = StructuralMarkdownChunker.chunk("design-notes.md", &markdown);
    let chunker =
        BudgetAwareMarkdownChunker::new(StructuralMarkdownChunker, HeuristicTokenCounter, budget);
    let new_chunks = chunker.chunk("design-notes.md", &markdown);
    assert!(
        new_chunks.len() > old_chunks.len(),
        "expected the budget-aware chunker to produce more, smaller chunks"
    );
    for c in &new_chunks {
        assert!(HeuristicTokenCounter.count(&c.content) <= budget);
    }
}

#[test]
fn oversized_protected_table_is_classified_as_request_rejected_not_backend_unavailable() {
    let mut table = String::from("| Status | Meaning | Example handler |\n|---|---|---|\n");
    for i in 200..260 {
        table.push_str(&format!(
            "| {i} | HTTP status {i} | `public ResponseEntity<Object> handle{i}(Exception e) {{ \
             return ResponseEntity.status({i}).body(new ErrorPayload(e.getMessage())); }}` |\n"
        ));
    }
    let markdown = format!(
        "# API Response Codes\n\n{table}\n\n# Short Section\n\nJust a short paragraph here.\n"
    );
    let chunker =
        BudgetAwareMarkdownChunker::new(StructuralMarkdownChunker, HeuristicTokenCounter, 64);
    let chunks = chunker.chunk("api-response-codes.md", &markdown);
    let big = chunks
        .iter()
        .find(|c| c.content.contains("| Status | Meaning"))
        .expect("the table should survive as one whole chunk, per the never-split invariant");
    assert!(big.content.contains("handle259"));

    match check_status(500, "input too large to process") {
        Err(ModelError::RequestRejected { status, body }) => {
            assert_eq!(status, 500);
            assert_eq!(body, "input too large to process");
        }
        other => panic!("expected RequestRejected, got {other:?}"),
    }
    assert!(check_status(204, "").is_ok());
}

#[test]
fn a_long_text_is_cut_at_paragraphs_then_sentences_then_anywhere() {
    let none: Vec<MarkdownEvent> = Vec::new();
    // 11 characters fit a budget of two tokens.
    assert_eq!(split_to_budget(&HeuristicTokenCounter, "aaaa\n\nbbbb\n\ncccc", &none, 2), vec!["aaaa\n\n", "bbbb\n\ncccc"]);
    assert_eq!(
        split_to_budget(&HeuristicTokenCounter, "One. Two. Three four five.", &none, 2),
        vec!["One. Two. ", "Three four ", "five."]
    );
    assert_eq!(split_to_budget(&HeuristicTokenCounter, "éééééééééééééééé", &none, 2), vec!["ééééééééééé", "ééééé"]);
    assert_eq!(split_to_budget(&HeuristicTokenCounter, "short", &none, 2), vec!["short"]);
}

#[test]
fn an_oversized_code_block_stays_whole() {
    let text = "intro text\n\n```\nlet a = 1;\n\nlet b = 2;\n```\n\nafter";
    let start = text.find("```").unwrap();
    let end = text.rfind("```").unwrap() + 4;
    let code = MarkdownEvent { kind: MarkdownKind::CodeBlock, start, end };
    let pieces = split_to_budget(&HeuristicTokenCounter, text, &vec![code], 2);
    assert_eq!(
        pieces,
        vec!["intro text\n", "```\nlet a = 1;\n\nlet b = 2;\n```\n", "\nafter"]
    );
}

#[test]
fn pipeline_ingestion_indexing_and_search_end_to_end() {
    let markdown = "\
# Ontology Engine

The ontology engine decides merge, new type, or judge for each candidate.

# File Ingestion

The watcher observes the folder and triggers reindexing only on a real hash change.
";
    let chunks = StructuralMarkdownChunker.chunk("corpus/doc.md", markdown);
    assert_eq!(chunks.len(), 2, "expected 2 chunks (2 headings)");
    assert!(chunks[0].content.contains("Ontology Engine"));
}

#[test]
fn paths_have_parents_names_and_parts() {
    for p in [
        "a/b/c.md", "/a/b", "/", "", ".", "./a", "a", "a/", "a//b", "a/./b", "a/..", "..", "/..",
        "//a", "./.", "a/b/.", "/./a", ".hidden", "a/.hidden.md", "x.tar.gz", "a/b.", "..a", "a.d/b",
    ] {
        let std_path = std::path::Path::new(p);
        let text = |o: Option<&std::path::Path>| o.map(|x| x.to_string_lossy().to_string());
        assert_eq!(parent(p), text(std_path.parent()), "parent of {p:?}");
        assert_eq!(file_name(p), std_path.file_name().map(|x| x.to_string_lossy().to_string()), "file name of {p:?}");
        assert_eq!(file_stem(p), std_path.file_stem().map(|x| x.to_string_lossy().to_string()), "stem of {p:?}");
        assert_eq!(extension(p), std_path.extension().map(|x| x.to_string_lossy().to_string()), "extension of {p:?}");
    }
}

#[test]
fn paths_compare_and_join_by_their_parts() {
    let samples = [
        "a/b", "a-b", "a", "a/", "/a", "./a", "../a", "a/../b", "a//b", "b", "", "a.md", "a/!", "..",
    ];
    for x in samples {
        for y in samples {
            let (px, py) = (std::path::Path::new(x), std::path::Path::new(y));
            assert_eq!(same_parts(&parts(x), &parts(y)), px == py, "{x:?} == {y:?}");
            assert_eq!(parts_before(&parts(x), &parts(y)), px < py, "{x:?} < {y:?}");
            assert_eq!(join_path(x, y), px.join(y).to_string_lossy(), "{x:?} join {y:?}");
        }
    }
}

#[test]
fn a_walk_takes_markdown_and_leaves_its_own_state() {
    assert_eq!(classify_entry("/p/.kern", true), EntryAction::Ignore);
    assert_eq!(classify_entry("/p/docs", true), EntryAction::Descend);
    assert_eq!(classify_entry("/p/a.md", false), EntryAction::Take);
    assert_eq!(classify_entry("/p/a.txt", false), EntryAction::Ignore);
    assert_eq!(classify_entry("/p/.md", false), EntryAction::Ignore);
    let paths: Vec<String> =
        ["/p/b.md", "/p/a-b.md", "/p/a/z.md", "/p/a.md"].iter().map(|s| s.to_string()).collect();
    let mut expected: Vec<std::path::PathBuf> = paths.iter().map(std::path::PathBuf::from).collect();
    expected.sort();
    let sorted: Vec<std::path::PathBuf> =
        sort_paths(&paths).into_iter().map(std::path::PathBuf::from).collect();
    assert_eq!(sorted, expected);
}

#[test]
fn deleted_files_are_those_that_are_gone() {
    let mut known = KnownHashes::new();
    known.insert("a.md", "1".to_string());
    known.insert("b.md", "2".to_string());
    assert_eq!(deleted_files(&known, &vec!["./b.md".to_string()]), vec!["a.md", "b.md"]);
    assert_eq!(deleted_files(&known, &vec!["b.md".to_string()]), vec!["a.md"]);
}

#[test]
fn only_a_refused_input_is_skippable() {
    assert!(is_skippable(&ModelError::RequestRejected { status: 400, body: String::new() }));
    assert!(!is_skippable(&ModelError::BackendUnavailable("down".to_string())));
    assert!(!is_skippable(&ModelError::Http("reset".to_string())));
    assert!(!is_skippable(&ModelError::MalformedResponse("odd".to_string())));
}

#[test]
fn model_errors_tell_what_happened() {
    assert_eq!(
        ModelError::BackendUnavailable("x".to_string()).message(),
        "inference subprocess unavailable: x"
    );
    assert_eq!(
        ModelError::MalformedResponse("x".to_string()).message(),
        "malformed inference response: x"
    );
    assert_eq!(ModelError::Http("x".to_string()).message(), "HTTP request to backend failed: x");
    assert_eq!(
        ModelError::RequestRejected { status: 413, body: "big".to_string() }.message(),
        "backend rejected the request (status 413): big"
    );
}

/// A corpus, its index and what the store says was indexed.
struct World {
    files: Vec<(&'static str, &'static str)>,
    rows: Vec<IndexedFile>,
    index: Vec<(String, String)>,
    embeds: usize,
}

impl World {
    fn mark(&mut self, mark: Mark) {
        self.rows.retain(|r| r.file_path != mark.path);
        self.rows.push(IndexedFile { file_path: mark.path, content_hash: mark.hash });
    }

    fn scan(
        &mut self,
        embed: &dyn Fn(&str) -> Result<(), ModelError>,
    ) -> Result<CatchUpSummary, ModelError> {
        let current: Vec<String> = self.files.iter().map(|f| f.0.to_string()).collect();
        let mut scan = CatchUpScan::start(known_hashes(&self.rows), &current);
        for path in scan.deleted.clone() {
            self.index.retain(|c| c.0 != path);
            self.rows.retain(|r| r.file_path != path);
        }
        for (path, content) in self.files.clone() {
            if let FilePlan::Changed { new_hash, was_indexed } = scan.visit(path, content) {
                if was_indexed {
                    self.index.retain(|c| c.0 != path);
                }
                let chunks = StructuralMarkdownChunker.chunk(path, content);
                if let Some(mark) = scan.enqueue(path, new_hash, chunks, false) {
                    self.mark(mark);
                }
            }
        }
        for i in 0..scan.pending.len() {
            self.embeds += 1;
            let text = scan.pending[i].chunk.content.clone();
            let result = match embed(&text) {
                Ok(()) => {
                    self.index.push((scan.pending[i].chunk.file_path.clone(), text));
                    ChunkResult::Indexed
                }
                Err(e) if is_skippable(&e) => ChunkResult::Skipped,
                Err(e) => return Err(e),
            };
            if let Some(mark) = scan.finish_chunk(i, result) {
                self.mark(mark);
            }
        }
        Ok(scan.summary())
    }
}

fn world(files: Vec<(&'static str, &'static str)>) -> World {
    World { files, rows: Vec::new(), index: Vec::new(), embeds: 0 }
}

#[test]
fn second_scan_of_an_unchanged_corpus_embeds_nothing() {
    let mut w = world(vec![("a.md", "# A\n\nContent A.\n"), ("b.md", "# B\n\nContent B.\n")]);
    let first = w.scan(&|_| Ok(())).unwrap();
    assert_eq!(first.indexed, 2);
    assert_eq!(first.changed_files, 2);
    assert_eq!(first.unchanged_files, 0);
    let calls_after_first = w.embeds;
    assert!(calls_after_first > 0);

    let second = w.scan(&|_| Ok(())).unwrap();
    assert_eq!(second.indexed, 0, "nothing changed, nothing to embed");
    assert_eq!(second.unchanged_files, 2);
    assert_eq!(second.changed_files, 0);
    assert_eq!(w.embeds, calls_after_first);
}

#[test]
fn changed_file_is_reindexed_and_deleted_file_is_removed_from_the_vector_store() {
    let mut w = world(vec![("a.md", "# A\n\nOriginal content.\n"), ("b.md", "# B\n\nContent B.\n")]);
    w.scan(&|_| Ok(())).unwrap();
    let calls_after_first = w.embeds;
    w.files = vec![("a.md", "# A\n\nEdited content.\n")];
    let second = w.scan(&|_| Ok(())).unwrap();
    assert_eq!(second.changed_files, 1, "only a.md was edited");
    assert_eq!(second.deleted_files, 1, "b.md was removed from disk");
    assert!(w.embeds > calls_after_first);
    assert!(w.index.iter().all(|c| !c.0.contains("b.md")));
    assert_eq!(w.index.len(), 1, "no stale chunk of a.md is left");
}

#[test]
fn a_chunk_skipped_via_request_rejected_still_marks_its_file_indexed() {
    let mut w = world(vec![("bad.md", "# Bad\n\nToo big for the backend.\n")]);
    let reject = |_: &str| {
        Err(ModelError::RequestRejected {
            status: 500,
            body: "input too large to process".to_string(),
        })
    };
    let first = w.scan(&reject).unwrap();
    assert_eq!(first.indexed, 0);
    assert_eq!(first.skipped, 1);
    let calls_after_first = w.embeds;
    let second = w.scan(&reject).unwrap();
    assert_eq!(second.unchanged_files, 1);
    assert_eq!(w.embeds, calls_after_first);
}

#[test]
fn a_backend_failure_mid_scan_does_not_mark_the_failing_file_indexed() {
    let mut w = world(vec![("bad.md", "# Bad\n\nWill fail.\n")]);
    let fail = |_: &str| Err(ModelError::BackendUnavailable("connection refused".to_string()));
    assert!(w.scan(&fail).is_err());
    assert!(w.rows.is_empty());
}

#[test]
fn a_file_without_chunks_is_complete_at_once_and_frontmatter_is_no_prose() {
    let mut scan = CatchUpScan::start(KnownHashes::new(), &vec!["e.md".to_string(), "f.md".to_string()]);
    let mark = scan.enqueue("e.md", "h".to_string(), Vec::new(), false).expect("complete at once");
    assert_eq!((mark.path.as_str(), mark.hash.as_str()), ("e.md", "h"));

    let chunks = StructuralMarkdownChunker.chunk("f.md", "---\nid: X\n---\n\n# A\n\none\n\n# B\n\ntwo\n");
    let n = chunks.len();
    assert!(n >= 2);
    assert!(scan.enqueue("f.md", "g".to_string(), chunks, true).is_none());
    assert!(scan.pending[0].is_frontmatter_chunk);
    assert!(scan.pending.iter().skip(1).all(|p| !p.is_frontmatter_chunk));
    for i in 0..n {
        let result = if i == 0 { ChunkResult::Skipped } else { ChunkResult::Indexed };
        let mark = scan.finish_chunk(i, result);
        assert_eq!(mark.is_some(), i + 1 == n, "marked with the last chunk only");
    }
    let summary = scan.summary();
    assert_eq!((summary.indexed, summary.skipped, summary.changed_files), (n - 1, 1, 2));
    assert!(scan.leaves_stale_ontology(true));
    assert!(!scan.leaves_stale_ontology(false));
}

#[test]
fn what_the_store_says_is_known() {
    let rows = vec![
        IndexedFile { file_path: "a.md".to_string(), content_hash: "1".to_string() },
        IndexedFile { file_path: "b.md".to_string(), content_hash: "2".to_string() },
        IndexedFile { file_path: "./b.md".to_string(), content_hash: "3".to_string() },
        IndexedFile { file_path: "b.md/".to_string(), content_hash: "4".to_string() },
    ];
    let known = known_hashes(&rows);
    assert_eq!(known.get("a.md"), Some("1".to_string()));
    assert_eq!(known.get("b.md"), Some("4".to_string()));
    assert_eq!(known.get("./b.md"), Some("3".to_string()));
}

#[test]
fn a_watcher_reports_writes_and_creations() {
    let watcher = Watcher::new("/p".to_string());
    assert_eq!(watcher.root, "/p");
    let paths = || vec!["/p/a.md".to_string(), "/p/b.md".to_string()];
    assert_eq!(watcher.report(true, false, paths()).len(), 2);
    assert_eq!(watcher.report(false, true, paths())[1].path, "/p/b.md");
    assert!(watcher.report(false, false, paths()).is_empty());
}
