use webfishing_installer::diff::{apply_diff, DiffError};
use webfishing_installer::diff_text::diff_text_accepted;

const DIFF: &str = "--- a.txt\n+++ a.txt\n@@ -1,3 +1,3 @@\n a\n-b\n+B\n c\n";

#[test]
fn diff_applies() {
    let r = apply_diff("a\nb\nc\n".to_string(), DIFF).unwrap();
    assert_eq!(r, "a\nB\nc");
}

#[test]
fn diff_keeps_lines_after_hunk() {
    let d = "--- a.txt\n+++ a.txt\n@@ -2,1 +2,1 @@\n-b\n+B\n";
    let r = apply_diff("a\nb\nc\nd".to_string(), d).unwrap();
    assert_eq!(r, "a\nB\nc\nd\n");
}

#[test]
fn unparsable_diff() {
    assert!(matches!(apply_diff("a\n".to_string(), "not a diff"), Err(DiffError::Unparsable)));
}

#[test]
fn hunk_past_the_end() {
    let d = "--- a.txt\n+++ a.txt\n@@ -10,1 +10,1 @@\n-x\n+y\n";
    assert!(matches!(apply_diff("a\n".to_string(), d), Err(DiffError::OutOfRange)));
}

#[test]
fn hunk_number_too_large_is_rejected() {
    let d = "--- a\n+++ b\n@@ -99999999999999999999 +1 @@\n-x\n+y\n";
    assert!(matches!(apply_diff("x\n".to_string(), d), Err(DiffError::Unparsable)));
    assert!(!diff_text_accepted(d));
}

#[test]
fn text_left_after_hunks_is_rejected() {
    let d = "--- a\n+++ b\n@@ -1 +1 @@\n-x\n+y\nfoo\n";
    assert!(matches!(apply_diff("x\n".to_string(), d), Err(DiffError::Unparsable)));
    assert!(!diff_text_accepted(d));
    // A last line without a line feed would be left over too.
    assert!(!diff_text_accepted("--- a\n+++ b\n@@ -1 +1 @@\n-x\n+y"));
}

#[test]
fn accepted_shapes() {
    assert!(diff_text_accepted(DIFF));
    assert!(diff_text_accepted("--- a\n+++ b\n@@ -1,2 +1,2 @@ fn main\n-x\n+y\n@@ -5 +5 @@\n z\n\n\n"));
    assert!(diff_text_accepted(""));
    assert!(diff_text_accepted("--- a\r\n+++ b\r\n@@ -1 +1 @@\r\n-x\r\n+y\r\n"));
    assert!(!diff_text_accepted("--- a\n+++ b\n@@ -1 +1 @@\n\n-x\n"));
    assert!(!diff_text_accepted("--- a\n+++ b\n@@ -1 +1 @@\n@@ -2 +2 @@\n-x\n"));
    let two = "--- a.txt\n+++ a.txt\n@@ -1,1 +1,1 @@\n-a\n+A\n@@ -3,1 +3,1 @@\n-c\n+C\n";
    assert_eq!(apply_diff("a\nb\nc\n".to_string(), two).unwrap(), "A\nb\nC");
}

#[test]
fn crlf_diff_applies() {
    let d = "--- a.txt\r\n+++ a.txt\r\n@@ -1,3 +1,3 @@\r\n a\r\n-b\r\n+B\r\n c\r\n\r\n";
    assert!(diff_text_accepted(d));
    let r = apply_diff("a\nb\nc\n".to_string(), d).unwrap();
    assert_eq!(r, "a\nB\nc");
}

#[test]
fn lone_carriage_return_in_hunk_is_rejected() {
    let d = "--- a\n+++ b\n@@ -1 +1 @@\n-x\ry\n+y\n";
    assert!(!diff_text_accepted(d));
    assert!(matches!(apply_diff("x\n".to_string(), d), Err(DiffError::Unparsable)));
    // Before the first hunk header a carriage return is left to the parser.
    assert!(diff_text_accepted("note\r!\n--- a\n+++ b\n@@ -1 +1 @@\n-x\n+y\n"));
}

#[test]
fn long_hunk_numbers_that_fit_are_accepted() {
    let d = "--- a\n+++ b\n@@ -00000000000000000001 +1,00000000000000000001 @@\n-x\n+y\n";
    assert!(diff_text_accepted(d));
    assert_eq!(apply_diff("x\n".to_string(), d).unwrap(), "y");
    assert!(diff_text_accepted("--- a\n+++ b\n@@ -18446744073709551615 +1 @@\n-x\n"));
    assert!(!diff_text_accepted("--- a\n+++ b\n@@ -18446744073709551616 +1 @@\n-x\n"));
    assert!(!diff_text_accepted("--- a\n+++ b\n@@ -1 +1,18446744073709551616 @@\n-x\n"));
}
