use agent_tools::diff::{apply_diff, parse_hunk_header};

#[test]
fn parse_full_header() {
    assert_eq!(parse_hunk_header("@@ -1,3 +1,4 @@"), Some((1, 3, 1, 4)));
}

#[test]
fn parse_header_without_counts() {
    assert_eq!(parse_hunk_header("@@ -7 +9 @@"), Some((7, 1, 9, 1)));
}

#[test]
fn parse_header_with_trailing_text() {
    assert_eq!(parse_hunk_header("@@ -2,5 +3,6 @@ fn main()"), Some((2, 5, 3, 6)));
}

#[test]
fn parse_header_zero_start() {
    assert_eq!(parse_hunk_header("@@ -0,0 +1,2 @@"), Some((0, 0, 1, 2)));
}

#[test]
fn parse_garbage_header() {
    assert_eq!(parse_hunk_header("@@ garbage @@"), None);
}

#[test]
fn parse_header_too_few_fields() {
    assert_eq!(parse_hunk_header("@@"), None);
    assert_eq!(parse_hunk_header("@@ -1,3"), None);
}

#[test]
fn parse_header_bad_count_defaults_to_one() {
    assert_eq!(parse_hunk_header("@@ -1,x +2,y @@"), Some((1, 1, 2, 1)));
}

#[test]
fn parse_header_overflowing_start_rejected() {
    assert_eq!(parse_hunk_header("@@ -99999999999999999999999999,1 +1,1 @@"), None);
}

#[test]
fn round_trip_single_hunk() {
    let (text, r) = apply_diff(
        "f.txt",
        "L1\nL2\nL3",
        "@@ -1,3 +1,3 @@\n L1\n-L2\n+L2x\n L3",
    );
    assert_eq!(text, "L1\nL2x\nL3");
    assert!(r.success);
    assert_eq!(r.lines_added, 1);
    assert_eq!(r.lines_removed, 1);
    assert_eq!(r.lines_changed, 2);
}

#[test]
fn counters_match_payload_when_in_range() {
    // a well-formed single-hunk diff whose header counts match its
    // operation lines: the counters are the literal counts of + and -
    let (text, r) = apply_diff(
        "f.txt",
        "a\nb\nc\nd",
        "@@ -2,2 +2,3 @@\n-b\n-c\n+x\n+y\n+z",
    );
    assert_eq!(text, "a\nx\ny\nz\nd");
    assert_eq!(r.lines_added, 3);
    assert_eq!(r.lines_removed, 2);
}

#[test]
fn zero_hunk_diff_changes_nothing() {
    let (text, r) = apply_diff("f.txt", "L1\nL2\nL3", "--- a/f.txt\n+++ b/f.txt");
    assert_eq!(text, "L1\nL2\nL3");
    assert!(r.success);
    assert_eq!(r.lines_changed, 0);
    assert_eq!(r.lines_added, 0);
    assert_eq!(r.lines_removed, 0);
}

#[test]
fn context_only_diff_changes_nothing() {
    let (text, r) = apply_diff(
        "f.txt",
        "L1\nL2\nL3",
        "--- a/f.txt\n+++ b/f.txt\n@@ -1,3 +1,3 @@\n L1\n L2\n L3",
    );
    assert_eq!(text, "L1\nL2\nL3");
    assert!(r.success);
    assert_eq!(r.lines_changed, 0);
    assert_eq!(r.lines_added, 0);
    assert_eq!(r.lines_removed, 0);
}

#[test]
fn addition_only_diff_is_not_idempotent() {
    // applying the same addition-only diff twice double-inserts: that
    // behaviour is load-bearing and must not silently change
    let diff = "@@ -1,0 +1,1 @@\n+new";
    let (once, r1) = apply_diff("f.txt", "a\nb", diff);
    assert_eq!(once, "new\na\nb");
    assert_eq!(r1.lines_added, 1);
    let (twice, r2) = apply_diff("f.txt", &once, diff);
    assert_eq!(twice, "new\nnew\na\nb");
    assert_eq!(r2.lines_added, 1);
    assert_ne!(once, twice);
}

#[test]
fn deletion_past_end_is_skipped() {
    let (text, r) = apply_diff("f.txt", "a\nb\nc", "@@ -10,1 +10,0 @@\n-ghost");
    assert_eq!(text, "a\nb\nc");
    assert!(r.success);
    assert_eq!(r.lines_removed, 0);
    assert_eq!(r.lines_changed, 0);
}

#[test]
fn malformed_header_does_not_abort() {
    // the bad marker is inert; the addition still applies at the cursor,
    // which was never set and so sits at the first line
    let (text, r) = apply_diff("f.txt", "a\nb", "@@ garbage @@\n+X");
    assert_eq!(text, "X\na\nb");
    assert!(r.success);
    assert_eq!(r.lines_added, 1);
}

#[test]
fn later_hunk_accounts_for_earlier_insertions() {
    // the second hunk's start names a line of the original file; the net
    // line inserted by the first hunk shifts where that line now sits
    let (text, r) = apply_diff(
        "f.txt",
        "a\nb\nc\nd",
        "@@ -1,1 +1,2 @@\n a\n+X\n@@ -3,1 +4,1 @@\n-c\n+C",
    );
    assert_eq!(text, "a\nX\nb\nC\nd");
    assert_eq!(r.lines_added, 2);
    assert_eq!(r.lines_removed, 1);
    assert_eq!(r.lines_changed, 3);
}

#[test]
fn later_hunk_reanchors_cursor() {
    let (text, r) = apply_diff(
        "f.txt",
        "a\nb\nc\nd\ne",
        "@@ -1,1 +1,1 @@\n-a\n+A\n@@ -4,1 +4,1 @@\n-d\n+D",
    );
    assert_eq!(text, "A\nb\nc\nD\ne");
    assert_eq!(r.lines_added, 2);
    assert_eq!(r.lines_removed, 2);
}

#[test]
fn zero_start_header_skips_out_of_range_ops() {
    // `@@ -0,... @@` seeds the cursor before the first line; mutating
    // operations there are out of range and are skipped one by one
    let (text, r) = apply_diff("f.txt", "a", "@@ -0,0 +1,1 @@\n+x");
    assert_eq!(text, "a");
    assert_eq!(r.lines_added, 0);
    assert_eq!(r.lines_changed, 0);
}

#[test]
fn crlf_line_endings_are_split() {
    let (text, r) = apply_diff("f.txt", "a\r\nb\r\nc", "@@ -2,1 +2,1 @@\n-b\n+B");
    assert_eq!(text, "a\nB\nc");
    assert_eq!(r.lines_changed, 2);
}

#[test]
fn success_message_names_the_path() {
    let (_, r) = apply_diff("/tmp/notes.txt", "x", "");
    assert_eq!(r.message, "Successfully applied diff to /tmp/notes.txt");
}

#[test]
fn empty_original_and_insertion() {
    let (text, r) = apply_diff("f.txt", "", "@@ -1,0 +1,2 @@\n+a\n+b");
    assert_eq!(text, "a\nb");
    assert_eq!(r.lines_added, 2);
}
