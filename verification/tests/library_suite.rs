//! Tests of the hunk assembler, the renderers, the tokenizers, and the
//! statistics.

use rustdiff::data::{DiffOp, DiffStats};
use rustdiff::hunks::group_into_hunks;
use rustdiff::modes::{diff_chars, diff_lines, diff_words, split_and_trim_lines, tokenize};
use rustdiff::patience::compute_patience_diff;
use rustdiff::render::{render_line_diff, usize_to_string};
use rustdiff::render_html::{ansi_to_html_line, split_diff_into_columns};
use rustdiff::render_unified::render_unified_diff;
use rustdiff::render_word::{op_text, render_word_diff};

fn s(seq: &[&str]) -> Vec<String> {
    seq.iter().map(|x| x.to_string()).collect()
}

fn eq(t: &str) -> DiffOp {
    DiffOp::Equal(t.to_string())
}

fn ins(t: &str) -> DiffOp {
    DiffOp::Insert(t.to_string())
}

fn del(t: &str) -> DiffOp {
    DiffOp::Delete(t.to_string())
}

#[test]
fn test_hunk_merge_threshold_split() {
    // two change clusters separated by 2*context + 1 equal ops: two hunks
    let mut ops = vec![del("a"), del("b"), del("c")];
    for i in 0..5 {
        ops.push(eq(&format!("e{i}")));
    }
    ops.push(ins("z"));
    let hunks = group_into_hunks(&ops, 2);
    assert_eq!(hunks.len(), 2);
}

#[test]
fn test_hunk_merge_threshold_merge() {
    // separated by exactly 2*context equal ops: one hunk
    let mut ops = vec![del("a"), del("b"), del("c")];
    for i in 0..4 {
        ops.push(eq(&format!("e{i}")));
    }
    ops.push(ins("z"));
    let hunks = group_into_hunks(&ops, 2);
    assert_eq!(hunks.len(), 1);
    assert_eq!(hunks[0].ops.len(), 8);
}

#[test]
fn test_all_equal_stream_yields_no_hunks() {
    let a = s(&["a", "b", "c"]);
    let b = s(&["a", "b", "c"]);
    let diff = compute_patience_diff(&a, &b);
    assert_eq!(diff.len(), 3);
    assert!(diff.iter().all(|op| matches!(op, DiffOp::Equal(_))));
    let hunks = group_into_hunks(&diff, 3);
    assert!(hunks.is_empty());
}

#[test]
fn test_hunk_fields() {
    let ops = vec![eq("a"), del("y"), ins("z"), eq("b")];
    let hunks = group_into_hunks(&ops, 1);
    assert_eq!(hunks.len(), 1);
    let h = &hunks[0];
    assert_eq!(h.start_a, 1);
    assert_eq!(h.start_b, 1);
    assert_eq!(h.len_a, 3);
    assert_eq!(h.len_b, 3);
    assert_eq!(h.ops, ops);
}

#[test]
fn test_hunk_context_clipping() {
    let ops = vec![eq("a"), eq("b"), eq("c"), del("d"), eq("e")];
    let hunks = group_into_hunks(&ops, 1);
    assert_eq!(hunks.len(), 1);
    let h = &hunks[0];
    assert_eq!(h.ops, vec![eq("c"), del("d"), eq("e")]);
    assert_eq!(h.start_a, 3);
    assert_eq!(h.start_b, 3);
}

#[test]
fn test_hunk_coverage_scenario() {
    // the hunks' changed operations are exactly the stream's, in order
    let mut ops = vec![eq("x"), del("a")];
    for i in 0..6 {
        ops.push(eq(&format!("e{i}")));
    }
    ops.push(ins("b"));
    ops.push(eq("y"));
    let hunks = group_into_hunks(&ops, 1);
    assert_eq!(hunks.len(), 2);
    let collected: Vec<DiffOp> = hunks
        .iter()
        .flat_map(|h| h.ops.iter().cloned())
        .filter(|op| !matches!(op, DiffOp::Equal(_)))
        .collect();
    let original: Vec<DiffOp> = ops
        .iter()
        .cloned()
        .filter(|op| !matches!(op, DiffOp::Equal(_)))
        .collect();
    assert_eq!(collected, original);
}

#[test]
fn test_render_line_diff_plain() {
    let ops = vec![eq("a"), ins("b"), del("c")];
    let out = render_line_diff(&ops, false);
    assert_eq!(out, "  a\n+ b\n- c\n");
}

#[test]
fn test_render_line_diff_color() {
    let ops = vec![ins("b")];
    let out = render_line_diff(&ops, true);
    assert_eq!(out, "\u{1b}[32m+ b\u{1b}[0m\n");
}

#[test]
fn test_render_unified_diff_plain() {
    let ops = vec![eq("x"), del("y"), ins("z")];
    let out = render_unified_diff("old.txt", "new.txt", &ops, 0, false);
    assert_eq!(out, "--- old.txt\n+++ new.txt\n@@ -2,1 +2,1 @@\n-y\n+z\n");
}

#[test]
fn test_render_unified_diff_with_context() {
    let ops = vec![eq("a"), del("y"), ins("z"), eq("b")];
    let out = render_unified_diff("o", "n", &ops, 1, false);
    assert_eq!(out, "--- o\n+++ n\n@@ -1,3 +1,3 @@\n a\n-y\n+z\n b\n");
}

#[test]
fn test_word_replacement_grouping() {
    let ops = vec![del("foo "), ins("bar ")];
    let out = render_word_diff(&ops, false);
    assert_eq!(out, "[-foo+bar] ");
}

#[test]
fn test_word_diff_lone_changes() {
    let ops = vec![eq("keep "), ins("new ")];
    let out = render_word_diff(&ops, false);
    assert_eq!(out, "keep [+new] ");
}

#[test]
fn test_word_diff_unpaired_whitespace_kept() {
    // an unpaired change must not absorb the whitespace context behind it
    let ops = vec![ins("x"), eq(" "), ins("y")];
    assert_eq!(render_word_diff(&ops, false), "[+x] [+y]");
}

#[test]
fn test_word_diff_unicode_whitespace() {
    // trailing-space splitting and the pairing scan use Unicode whitespace
    let trailing = render_word_diff(&[del("foo\u{a0}")], false);
    assert_eq!(trailing, "[-foo]\u{a0}");
    let ops = vec![del("a"), eq("\u{a0}"), ins("b")];
    assert_eq!(render_word_diff(&ops, false), "[-a+b]");
}

#[test]
fn test_tokenize_marker_unicode_trim() {
    assert_eq!(tokenize("[-\u{a0}a+b\u{a0}]"), s(&["[-a+b]"]));
}

#[test]
fn test_word_diff_group_across_whitespace() {
    let ops = vec![ins("bar "), eq(" "), del("foo ")];
    let out = render_word_diff(&ops, false);
    assert_eq!(out, "[-foo+bar] ");
}

#[test]
fn test_op_text() {
    assert_eq!(op_text(&eq("a")), "a");
    assert_eq!(op_text(&ins("b")), "b");
    assert_eq!(op_text(&del("c")), "c");
}

#[test]
fn test_split_and_trim_lines() {
    let lines = split_and_trim_lines("a\r\nb\nc");
    assert_eq!(lines, s(&["a", "b", "c"]));
    assert!(split_and_trim_lines("").is_empty());
    assert_eq!(split_and_trim_lines("\n"), s(&[""]));
}

#[test]
fn test_tokenize_words_and_spaces() {
    assert_eq!(tokenize("foo  bar"), s(&["foo", " ", "bar"]));
    assert_eq!(tokenize("  x"), s(&[" ", "x"]));
    assert!(tokenize("").is_empty());
}

#[test]
fn test_tokenize_marker() {
    assert_eq!(tokenize("x [-a+b] y"), s(&["x", " ", "[-a+b]", " ", "y"]));
    assert_eq!(tokenize("[- a + b ]"), s(&["[-a+b]"]));
}

#[test]
fn test_tokenize_empty_marker_disappears() {
    assert_eq!(tokenize("a [- + ] b"), s(&["a", " ", "b"]));
}

#[test]
fn test_tokenize_incomplete_marker_is_a_word() {
    assert_eq!(tokenize("[oops"), s(&["[oops"]));
    assert_eq!(tokenize("a[b"), s(&["a", "[b"]));
}

#[test]
fn test_diff_lines_crlf_insensitive() {
    let unix = diff_lines("a\nb\n", "a\nc\n");
    let dos = diff_lines("a\r\nb\r\n", "a\r\nc\r\n");
    assert_eq!(unix, dos);
    assert_eq!(unix, vec![eq("a"), del("b"), ins("c")]);
}

#[test]
fn test_diff_lines_simple() {
    let diff = diff_lines("a\nb\n", "a\nc\n");
    assert_eq!(
        diff,
        vec![eq("a"), del("b"), ins("c")]
    );
}

#[test]
fn test_diff_words_simple() {
    let diff = diff_words("foo bar", "foo baz");
    assert_eq!(
        diff,
        vec![eq("foo"), eq(" "), del("bar"), ins("baz")]
    );
}

#[test]
fn test_diff_chars_simple() {
    let diff = diff_chars("ab", "ac");
    assert_eq!(diff, vec![eq("a"), del("b"), ins("c")]);
}

#[test]
fn test_stats_from_ops() {
    let ops = vec![eq("a"), ins("b"), ins("c"), del("d")];
    let stats = DiffStats::from_ops(&ops);
    assert_eq!(stats.inserts, 2);
    assert_eq!(stats.deletes, 1);
    assert_eq!(stats.changes, 3);
}

#[test]
fn test_usize_to_string() {
    assert_eq!(usize_to_string(0), "0");
    assert_eq!(usize_to_string(7), "7");
    assert_eq!(usize_to_string(42), "42");
    assert_eq!(usize_to_string(1005), "1005");
}

#[test]
fn test_split_diff_into_columns_pairs() {
    let (left, right) = split_diff_into_columns("-x\n+y\n z\n");
    assert_eq!(left, vec![Some("-x".to_string()), Some(" z".to_string())]);
    assert_eq!(right, vec![Some("+y".to_string()), Some(" z".to_string())]);
}

#[test]
fn test_split_diff_into_columns_lone_changes() {
    let (left, right) = split_diff_into_columns("-x\n z\n+y\n");
    assert_eq!(
        left,
        vec![Some("-x".to_string()), Some(" z".to_string()), None]
    );
    assert_eq!(
        right,
        vec![None, Some(" z".to_string()), Some("+y".to_string())]
    );
}

#[test]
fn test_ansi_to_html_line_escapes() {
    let html = ansi_to_html_line("a<b");
    assert_eq!(html, "a&lt;b");
}

#[test]
fn test_ansi_to_html_line_translates_colors() {
    let html = ansi_to_html_line("\u{1b}[31mred\u{1b}[0m");
    assert!(html.contains("red"));
    assert!(!html.contains('\u{1b}'));
    assert_ne!(html, "\u{1b}[31mred\u{1b}[0m");
}

#[test]
fn test_patience_empty_sides() {
    let empty: Vec<String> = vec![];
    let b = s(&["x", "y"]);
    let diff = compute_patience_diff(&empty, &b);
    assert_eq!(diff, vec![ins("x"), ins("y")]);
    let diff2 = compute_patience_diff(&b, &empty);
    assert_eq!(diff2, vec![del("x"), del("y")]);
    let diff3 = compute_patience_diff(&empty, &empty);
    assert!(diff3.is_empty());
}
