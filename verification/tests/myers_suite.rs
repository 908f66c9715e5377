//! Tests of the edit-script engine.

use rustdiff::data::DiffOp;
use rustdiff::myers::compute_diff;

/// Apply a diff to the original sequence to reconstruct the target.
fn apply_diff(a: &[String], diff: &[DiffOp]) -> Vec<String> {
    let mut result = Vec::new();
    let mut ai = 0;
    for op in diff {
        match op {
            DiffOp::Equal(s) => {
                assert_eq!(
                    Some(s.as_str()),
                    a.get(ai).map(|x| x.as_str()),
                    "Equal operation mismatched original sequence"
                );
                result.push(s.clone());
                ai += 1;
            }
            DiffOp::Insert(s) => result.push(s.clone()),
            DiffOp::Delete(s) => {
                assert_eq!(
                    Some(s.as_str()),
                    a.get(ai).map(|x| x.as_str()),
                    "Delete operation removed wrong element"
                );
                ai += 1;
            }
        }
    }
    result
}

fn s(seq: &[&str]) -> Vec<String> {
    seq.iter().map(|x| x.to_string()).collect()
}

#[test]
fn test_identical_sequences() {
    let a = s(&["a", "b", "c"]);
    let b = s(&["a", "b", "c"]);
    let diff = compute_diff(&a, &b);
    assert_eq!(apply_diff(&a, &diff), b);
    assert!(diff.iter().all(|op| matches!(op, DiffOp::Equal(_))));
}

#[test]
fn test_insertion_at_end() {
    let a = s(&["a", "b"]);
    let b = s(&["a", "b", "c"]);
    let diff = compute_diff(&a, &b);
    assert_eq!(apply_diff(&a, &diff), b);
}

#[test]
fn test_insertion_at_start() {
    let a = s(&["b", "c"]);
    let b = s(&["a", "b", "c"]);
    let diff = compute_diff(&a, &b);
    assert_eq!(apply_diff(&a, &diff), b);
}

#[test]
fn test_deletion_from_middle() {
    let a = s(&["a", "b", "c", "d"]);
    let b = s(&["a", "c", "d"]);
    let diff = compute_diff(&a, &b);
    assert_eq!(apply_diff(&a, &diff), b);
}

#[test]
fn test_replacement() {
    let a = s(&["I", "love", "Rust"]);
    let b = s(&["I", "hate", "Rust"]);
    let diff = compute_diff(&a, &b);
    assert_eq!(apply_diff(&a, &diff), b);
}

#[test]
fn test_completely_different_sequences() {
    let a = s(&["x", "y", "z"]);
    let b = s(&["a", "b", "c"]);
    let diff = compute_diff(&a, &b);
    assert_eq!(apply_diff(&a, &diff), b);

    // All deletes then all inserts (number sanity)
    let deletes = diff
        .iter()
        .filter(|d| matches!(d, DiffOp::Delete(_)))
        .count();
    let inserts = diff
        .iter()
        .filter(|d| matches!(d, DiffOp::Insert(_)))
        .count();
    assert_eq!(deletes, 3);
    assert_eq!(inserts, 3);
}

#[test]
fn test_empty_to_nonempty() {
    let a = s(&[]);
    let b = s(&["hello", "world"]);
    let diff = compute_diff(&a, &b);
    assert_eq!(apply_diff(&a, &diff), b);
    assert!(diff.iter().all(|op| matches!(op, DiffOp::Insert(_))));
}

#[test]
fn test_nonempty_to_empty() {
    let a = s(&["bye", "now"]);
    let b = s(&[]);
    let diff = compute_diff(&a, &b);
    assert_eq!(apply_diff(&a, &diff), b);
    assert!(diff.iter().all(|op| matches!(op, DiffOp::Delete(_))));
}

#[test]
fn test_repeated_elements() {
    let a = s(&["a", "a", "b"]);
    let b = s(&["a", "b", "b"]);
    let diff = compute_diff(&a, &b);
    assert_eq!(apply_diff(&a, &diff), b);
}

#[test]
fn test_insert_delete_mix() {
    let a = s(&["a", "b", "x", "d"]);
    let b = s(&["a", "b", "c", "d", "e"]);
    let diff = compute_diff(&a, &b);
    assert_eq!(apply_diff(&a, &diff), b);
}

#[test]
fn test_empty_both() {
    let a = s(&[]);
    let b = s(&[]);
    let diff = compute_diff(&a, &b);
    assert!(diff.is_empty());
}

#[test]
fn test_longer_random_sequences() {
    let a: Vec<String> = (0..50).map(|i| i.to_string()).collect();
    let b: Vec<String> = (25..75).map(|i| i.to_string()).collect();

    let diff = compute_diff(&a, &b);
    assert_eq!(apply_diff(&a, &diff), b);
}

#[test]
fn test_partial_overlap_sequences() {
    let a = s(&["A", "B", "C", "D", "E"]);
    let b = s(&["B", "C", "F", "E"]);
    let diff = compute_diff(&a, &b);
    assert_eq!(apply_diff(&a, &diff), b);
}
