//! Tests for the diff rendering core: line ranges, highlight slicing,
//! fragment splitting, meta parsing, word diffs and end-to-end assembly.
use strand_core::diff_status::DiffStatus;
use strand_core::file_diff::{
    line_number_range, split_fragments_into_lines, tokenize_code, word_diff_section, FileDiff,
    Fragment, LineDiff,
};
use strand_core::file_diff_meta::{
    group_hunk_into_sections, FileDiffMeta, Hunk, HunkSection,
};
use strand_core::hash::GitHash;
use strand_core::highlight::Highlights;

#[test]
fn calculates_line_number_range() {
    let file = "First line
Second line
Third line
Fourth and final line";
    let r1 = line_number_range(1, file);
    assert_eq!(file.get(r1.0..r1.1), Some("First line"));
    let r2 = line_number_range(2, file);
    assert_eq!(file.get(r2.0..r2.1), Some("Second line"));
    let r3 = line_number_range(3, file);
    assert_eq!(file.get(r3.0..r3.1), Some("Third line"));
    let r4 = line_number_range(4, file);
    assert_eq!(file.get(r4.0..r4.1), Some("Fourth and final line"));
}

#[test]
fn fills_in_range_gaps() {
    let file = "line 1\n  second line";
    let highlights = Highlights(vec![
        (0, 4, vec!["variable".to_string()]),
        (5, 6, vec!["constant".to_string()]),
        (9, 15, vec!["variable".to_string()]),
        (16, 20, vec!["constant".to_string()]),
    ]);
    let r = line_number_range(2, file);
    let ranges = highlights.get_ranges(r.0, r.1);

    assert_eq!(
        ranges,
        vec![
            (7, 9, None),
            (9, 15, Some(vec!["variable".to_string()])),
            (15, 16, None),
            (16, 20, Some(vec!["constant".to_string()])),
        ]
    );
}

#[test]
fn creates_fragments_from_highlights() {
    let file = "// My cool string\nlet my_variable = String::from(\"Something\");";
    let highlights = Highlights(vec![
        (0, 17, vec!["comment".to_string()]),
        (18, 21, vec!["keyword".to_string()]),
        (22, 33, vec!["variable".to_string()]),
        (34, 35, vec!["operator".to_string()]),
        (36, 42, vec!["constructor".to_string()]),
        (42, 44, vec!["punctuation".to_string()]),
        (44, 48, vec!["function".to_string()]),
        (48, 61, vec!["string".to_string()]),
        (61, 62, vec!["punctuation".to_string()]),
    ]);
    let r = line_number_range(2, file);
    let fragments = Fragment::from_highlighted(
        r.0,
        r.1,
        file.get(r.0..r.1).unwrap(),
        DiffStatus::Unmodified,
        &highlights,
    );

    let expected = vec![
        ("let", Some(vec!["keyword"])),
        (" ", None),
        ("my_variable", Some(vec!["variable"])),
        (" ", None),
        ("=", Some(vec!["operator"])),
        (" ", None),
        ("String", Some(vec!["constructor"])),
        ("::", Some(vec!["punctuation"])),
        ("from", Some(vec!["function"])),
        ("(\"Something\")", Some(vec!["string"])),
        (";", Some(vec!["punctuation"])),
    ];
    let expected: Vec<Fragment> = expected
        .into_iter()
        .map(|(text, class)| Fragment {
            text: text.to_string(),
            status: DiffStatus::Unmodified,
            class: class.map(|c| c.into_iter().map(|s: &str| s.to_string()).collect()),
        })
        .collect();
    assert_eq!(fragments, expected);
}

#[test]
fn splits_fragments_into_lines() {
    let fragment_1 = Fragment {
        text: "one".to_string(),
        status: DiffStatus::Unmodified,
        class: None,
    };
    let fragment_2 = Fragment {
        text: "two\n".to_string(),
        status: DiffStatus::Added,
        class: None,
    };
    let fragment_3 = Fragment {
        text: "three".to_string(),
        status: DiffStatus::Removed,
        class: None,
    };
    let fragments = vec![fragment_1.clone(), fragment_2, fragment_3.clone()];
    let lines = split_fragments_into_lines(&fragments);

    assert_eq!(
        lines,
        vec![
            vec![
                fragment_1,
                Fragment {
                    text: "two".to_string(),
                    status: DiffStatus::Added,
                    class: None,
                }
            ],
            vec![fragment_3]
        ]
    );
}

#[test]
fn parses_a_changed_file() {
    let s = r#"diff --git a/src-tauri/src/commands/mod.rs b/src-tauri/src/commands/mod.rs
index 628f0e2e8d64bae420b909c688e0964f7f530306..87eab99c6eca0c299bdf0fa8185d4f0d40255b73 100644
--- a/src-tauri/src/commands/mod.rs
+++ b/src-tauri/src/commands/mod.rs
@@ -24,8 +24,8 @@ pub enum CommandError {
         #[from]
         sqlx::Error,
     ),
-    #[error("failed to parse git output")]
-    Parse,
+    #[error("failed to parse git output: {0}")]
+    Parse(String),
     #[error("{0}")]
     Other(String),
 }"#;
    assert_eq!(
        FileDiffMeta::from_str(s).unwrap(),
        FileDiffMeta {
            src_path: "src-tauri/src/commands/mod.rs".to_string(),
            dst_path: "src-tauri/src/commands/mod.rs".to_string(),
            src_hash: Some(GitHash("628f0e2e8d64bae420b909c688e0964f7f530306".to_string())),
            dst_hash: Some(GitHash("87eab99c6eca0c299bdf0fa8185d4f0d40255b73".to_string())),
            hunks: vec![Hunk {
                header: "@@ -24,8 +24,8 @@ pub enum CommandError {".to_string(),
                src_start: 24,
                src_end: 32,
                dst_start: 24,
                dst_end: 32,
                sections: vec![
                    HunkSection::Unmodified(vec![(24, 24), (25, 25), (26, 26)]),
                    HunkSection::RemovedAdded(vec![27, 28], vec![27, 28]),
                    HunkSection::Unmodified(vec![(29, 29), (30, 30), (31, 31)])
                ]
            }]
        }
    );
}

#[test]
fn parses_a_hunk_header_with_lengths() {
    let hunk = Hunk::from_str(" -5,3 +5,4 @@").unwrap();
    assert_eq!(hunk.src_start, 5);
    assert_eq!(hunk.src_end, 8);
    assert_eq!(hunk.dst_start, 5);
    assert_eq!(hunk.dst_end, 9);
    assert_eq!(hunk.header, "@@ -5,3 +5,4 @@");
    assert!(hunk.sections.is_empty());
}

#[test]
fn parses_a_hunk_header_with_default_lengths() {
    let hunk = Hunk::from_str(" -3 +7 @@ context").unwrap();
    assert_eq!(hunk.src_start, 3);
    assert_eq!(hunk.src_end, 4);
    assert_eq!(hunk.dst_start, 7);
    assert_eq!(hunk.dst_end, 8);
}

#[test]
fn rejects_a_hunk_without_ranges() {
    assert!(Hunk::from_str(" nonsense @@").is_err());
    assert!(Hunk::from_str("").is_err());
}

#[test]
fn segments_lines_into_typed_runs() {
    let records = vec![
        (Some(1), Some(1), DiffStatus::Unmodified),
        (Some(2), None, DiffStatus::Removed),
        (None, Some(2), DiffStatus::Added),
        (Some(3), Some(3), DiffStatus::Unmodified),
    ];
    let sections = group_hunk_into_sections(&records);
    assert_eq!(
        sections,
        vec![
            HunkSection::Unmodified(vec![(1, 1)]),
            HunkSection::RemovedAdded(vec![2], vec![2]),
            HunkSection::Unmodified(vec![(3, 3)]),
        ]
    );
}

#[test]
fn segments_a_parsed_hunk() {
    let hunk = Hunk::from_str(" -1,3 +1,3 @@\n a\n-b\n+c\n d").unwrap();
    assert_eq!(
        hunk.sections,
        vec![
            HunkSection::Unmodified(vec![(1, 1)]),
            HunkSection::RemovedAdded(vec![2], vec![2]),
            HunkSection::Unmodified(vec![(3, 3)]),
        ]
    );
}

#[test]
fn strips_every_trailing_newline_from_a_fragment() {
    let fragments = vec![
        Fragment {
            text: "one\n\n".to_string(),
            status: DiffStatus::Unmodified,
            class: None,
        },
        Fragment {
            text: "two".to_string(),
            status: DiffStatus::Unmodified,
            class: None,
        },
    ];
    let lines = split_fragments_into_lines(&fragments);
    assert_eq!(lines.len(), 2);
    assert_eq!(lines[0][0].text, "one");
    assert_eq!(lines[1][0].text, "two");
}

#[test]
fn word_diff_gives_a_trailing_empty_line_its_own_record() {
    let removed = vec!["a".to_string(), String::new()];
    let added = vec!["b".to_string()];
    let empty = Highlights(vec![]);
    let (rlines, alines) = word_diff_section(&removed, &added, 0, 0, &empty, &empty);
    assert_eq!(rlines.len(), 2);
    assert_eq!(alines.len(), 1);
    let rejoined: Vec<String> = rlines
        .iter()
        .map(|l| l.iter().map(|f| f.text.as_str()).collect::<Vec<_>>().concat())
        .collect();
    assert_eq!(rejoined, vec!["a".to_string(), String::new()]);
}

#[test]
fn no_intersection_yields_single_gap() {
    let highlights = Highlights(vec![(0, 3, vec!["comment".to_string()])]);
    let ranges = highlights.get_ranges(10, 20);
    assert_eq!(ranges, vec![(10, 20, None)]);
}

#[test]
fn contained_span_yields_single_classed_piece() {
    let highlights = Highlights(vec![(5, 50, vec!["string".to_string()])]);
    let ranges = highlights.get_ranges(10, 20);
    assert_eq!(ranges, vec![(10, 20, Some(vec!["string".to_string()]))]);
}

#[test]
fn empty_query_yields_no_pieces() {
    let highlights = Highlights(vec![(0, 30, vec!["comment".to_string()])]);
    assert_eq!(highlights.get_ranges(10, 10), vec![]);
}

fn line_text(line: &LineDiff) -> String {
    line.fragments.iter().map(|f| f.text.as_str()).collect::<Vec<_>>().concat()
}

#[test]
fn word_diff_counts_match_line_counts() {
    let removed = vec!["let x = 1;".to_string(), "foo".to_string()];
    let added = vec!["let x = 2;".to_string()];
    let empty = Highlights(vec![]);
    let (rlines, alines) = word_diff_section(&removed, &added, 0, 0, &empty, &empty);
    assert_eq!(rlines.len(), 2);
    assert_eq!(alines.len(), 1);
    let rejoined: Vec<String> = rlines
        .iter()
        .map(|l| l.iter().map(|f| f.text.as_str()).collect::<Vec<_>>().concat())
        .collect();
    assert_eq!(rejoined, removed);
}

#[test]
fn end_to_end_word_diff_isolates_the_changed_token() {
    let s = "diff --git a/x.txt b/x.txt\nindex 628f0e2e8d64bae420b909c688e0964f7f530306..87eab99c6eca0c299bdf0fa8185d4f0d40255b73 100644\n--- a/x.txt\n+++ b/x.txt\n@@ -1 +1 @@\n-let x = 1;\n+let x = 2;";
    let meta = FileDiffMeta::from_str(s).unwrap();
    let diff = FileDiff::from(
        meta,
        Some("let x = 1;\n".to_string()),
        Some("let x = 2;\n".to_string()),
    )
    .unwrap();
    assert_eq!(diff.0.len(), 1);
    let lines = &diff.0[0].lines;
    assert_eq!(lines.len(), 2);

    let removed = &lines[0];
    assert_eq!(removed.status, DiffStatus::Removed);
    assert_eq!(removed.src_line_number, Some(1));
    assert_eq!(removed.dst_line_number, None);
    assert_eq!(line_text(removed), "let x = 1;");
    let removed_parts: Vec<(String, DiffStatus)> = removed
        .fragments
        .iter()
        .map(|f| (f.text.clone(), f.status))
        .collect();
    assert_eq!(
        removed_parts,
        vec![
            ("let x = ".to_string(), DiffStatus::Unmodified),
            ("1".to_string(), DiffStatus::Removed),
            (";".to_string(), DiffStatus::Unmodified),
        ]
    );

    let added = &lines[1];
    assert_eq!(added.status, DiffStatus::Added);
    assert_eq!(added.src_line_number, None);
    assert_eq!(added.dst_line_number, Some(1));
    assert_eq!(line_text(added), "let x = 2;");
    let added_parts: Vec<(String, DiffStatus)> = added
        .fragments
        .iter()
        .map(|f| (f.text.clone(), f.status))
        .collect();
    assert_eq!(
        added_parts,
        vec![
            ("let x = ".to_string(), DiffStatus::Unmodified),
            ("2".to_string(), DiffStatus::Added),
            (";".to_string(), DiffStatus::Unmodified),
        ]
    );
}

#[test]
fn unknown_extension_yields_classless_fragments() {
    let s = "diff --git a/notes.zzz b/notes.zzz\nindex 628f0e2e8d64bae420b909c688e0964f7f530306..87eab99c6eca0c299bdf0fa8185d4f0d40255b73 100644\n--- a/notes.zzz\n+++ b/notes.zzz\n@@ -1,2 +1,2 @@\n one\n-two\n+2";
    let meta = FileDiffMeta::from_str(s).unwrap();
    let diff = FileDiff::from(
        meta,
        Some("one\ntwo\n".to_string()),
        Some("one\n2\n".to_string()),
    )
    .unwrap();
    let lines = &diff.0[0].lines;
    assert_eq!(lines.len(), 3);
    assert_eq!(lines[0].status, DiffStatus::Unmodified);
    assert_eq!(lines[0].src_line_number, Some(1));
    assert_eq!(lines[0].dst_line_number, Some(1));
    assert_eq!(line_text(&lines[0]), "one");
    assert_eq!(lines[1].status, DiffStatus::Removed);
    assert_eq!(line_text(&lines[1]), "two");
    assert_eq!(lines[2].status, DiffStatus::Added);
    assert_eq!(line_text(&lines[2]), "2");
    for line in lines {
        for fragment in &line.fragments {
            assert!(fragment.class.is_none());
        }
    }
}

#[test]
fn rejects_a_diff_that_does_not_fit_the_files() {
    let s = "diff --git a/x.txt b/x.txt\nindex 628f0e2e8d64bae420b909c688e0964f7f530306..87eab99c6eca0c299bdf0fa8185d4f0d40255b73 100644\n--- a/x.txt\n+++ b/x.txt\n@@ -5 +5 @@\n-gone\n+here";
    let meta = FileDiffMeta::from_str(s).unwrap();
    assert!(FileDiff::from(meta, Some("one\n".to_string()), Some("one\n".to_string())).is_err());
}

#[test]
fn tokenizes_words_whitespace_and_symbols() {
    let tokens = tokenize_code("let my_var = 12;\n  next");
    assert_eq!(
        tokens,
        vec!["let", " ", "my_var", " ", "=", " ", "12", ";", "\n", "  ", "next"]
    );
}

#[test]
fn tokenizes_unicode_whitespace_as_one_run() {
    // Two adjacent no-break spaces are one whitespace token, and a
    // newline inside a whitespace stretch still stands alone.
    let tokens = tokenize_code("a\u{a0}\u{a0}b \u{2003}\nc");
    assert_eq!(
        tokens,
        vec!["a", "\u{a0}\u{a0}", "b", " \u{2003}", "\n", "c"]
    );
}

#[test]
fn converts_highlight_byte_offsets_on_non_ascii_text() {
    // The line holds a two-byte character before `let`, so the grammar's
    // byte offsets and the engine's char offsets diverge; after the
    // conversion the keyword class still lands on `let`.
    let src = "// é comment\nlet x = 1;\n";
    let dst = "// é comment\nlet y = 1;\n";
    let s = "diff --git a/main.rs b/main.rs\nindex 628f0e2e8d64bae420b909c688e0964f7f530306..87eab99c6eca0c299bdf0fa8185d4f0d40255b73 100644\n--- a/main.rs\n+++ b/main.rs\n@@ -1,2 +1,2 @@\n // é comment\n-let x = 1;\n+let y = 1;";
    let meta = FileDiffMeta::from_str(s).unwrap();
    let diff = FileDiff::from(meta, Some(src.to_string()), Some(dst.to_string())).unwrap();
    let lines = &diff.0[0].lines;
    assert_eq!(line_text(&lines[0]), "// é comment");
    assert_eq!(line_text(&lines[1]), "let x = 1;");
    assert_eq!(line_text(&lines[2]), "let y = 1;");
    let keyword_fragment = lines[1]
        .fragments
        .iter()
        .find(|f| f.class.as_ref().is_some_and(|c| c.iter().any(|p| p == "keyword")));
    assert_eq!(keyword_fragment.map(|f| f.text.as_str()), Some("let"));
}

#[test]
fn highlights_a_rust_source_line() {
    let s = "diff --git a/main.rs b/main.rs\nindex 628f0e2e8d64bae420b909c688e0964f7f530306..87eab99c6eca0c299bdf0fa8185d4f0d40255b73 100644\n--- a/main.rs\n+++ b/main.rs\n@@ -1 +1 @@\n-let x = 1;\n+let y = 1;";
    let meta = FileDiffMeta::from_str(s).unwrap();
    let diff = FileDiff::from(
        meta,
        Some("let x = 1;\n".to_string()),
        Some("let y = 1;\n".to_string()),
    )
    .unwrap();
    // The raw line text survives highlighting and word-diffing unchanged,
    // and the keyword picks up a class from the grammar.
    let lines = &diff.0[0].lines;
    assert_eq!(line_text(&lines[0]), "let x = 1;");
    assert_eq!(line_text(&lines[1]), "let y = 1;");
    let classed = lines[0]
        .fragments
        .iter()
        .any(|f| f.class.as_ref().is_some_and(|c| c.iter().any(|p| p == "keyword")));
    assert!(classed);
}
