use diffscope::collections::TextSet;
use diffscope::git::{parse_batch_blobs, parse_hunk_header, parse_numstat_binary_paths, parse_patch};
use diffscope::BlobContent;

#[test]
fn parses_hunk_header_with_counts() {
    let hunk = parse_hunk_header("@@ -10,2 +20,3 @@ fn main").expect("hunk parses");
    assert_eq!(hunk.base_start, 10);
    assert_eq!(hunk.base_count, 2);
    assert_eq!(hunk.target_start, 20);
    assert_eq!(hunk.target_count, 3);
}

#[test]
fn counts_changed_lines_inside_hunks() {
    let by_path =
        parse_patch("diff --git a/a b/a\n--- a/a\n+++ b/a\n@@ -1 +1,2 @@\n-old\n+new\n+more\n")
            .expect("diff parses");
    let hunks = by_path.get("a").expect("file a has hunks");

    assert_eq!(hunks.len(), 1);
    assert_eq!(hunks[0].removed_lines, 1);
    assert_eq!(hunks[0].added_lines, 2);
}

#[test]
fn separates_hunks_of_every_file_in_one_patch() {
    let by_path = parse_patch(&[
        "diff --git a/one.ts b/one.ts\n--- a/one.ts\n+++ b/one.ts\n",
        "@@ -1 +1 @@\n-a\n+b\n",
        "diff --git a/gone.ts b/gone.ts\n--- a/gone.ts\n+++ /dev/null\n",
        "@@ -1,2 +0,0 @@\n-a\n-b\n",
        "diff --git a/before.ts b/after.ts\n--- a/before.ts\n+++ b/after.ts\n",
        "@@ -2 +2 @@\n-old\n+new\n",
    ].concat())
    .expect("diff parses");

    assert_eq!(by_path.len(), 3);
    assert_eq!(by_path.get("one.ts").expect("the file has hunks").len(), 1);
    assert_eq!(by_path.get("gone.ts").expect("the file has hunks")[0].removed_lines, 2);
    assert_eq!(by_path.get("after.ts").expect("the file has hunks")[0].added_lines, 1);
    assert_eq!(by_path.get("after.ts").expect("the file has hunks")[0].base_start, 2);
}

#[test]
fn keeps_content_lines_that_look_like_file_headers() {
    let by_path = parse_patch(
        "diff --git a/a b/a\n--- a/a\n+++ b/a\n@@ -1 +1 @@\n--- not a header\n+++ also not\n",
    )
    .expect("diff parses");
    let hunks = by_path.get("a").expect("file a has hunks");

    assert_eq!(hunks[0].removed_lines, 1);
    assert_eq!(hunks[0].added_lines, 1);
}

#[test]
fn reads_binary_paths_including_renames_from_numstat() {
    let binary_paths = parse_numstat_binary_paths(
        b"1\t1\ttext.ts\0-\t-\timage.bin\0-\t-\t\0old.bin\0new.bin\0",
    )
    .expect("numstat parses");

    assert!(binary_paths.contains("image.bin"));
    assert!(binary_paths.contains("new.bin"));
    assert!(!binary_paths.contains("text.ts"));
    assert_eq!(binary_paths.len(), 2);
}

#[test]
fn parses_available_and_missing_batch_blobs() {
    let object_ids = TextSet::from_list(&vec!["aaaa".to_owned(), "bbbb".to_owned()]);
    let blobs = parse_batch_blobs(b"aaaa blob 4\nx\0y\n\nbbbb missing\n", &object_ids)
        .expect("batch output parses");

    assert_eq!(
        blobs.get("aaaa"),
        Some(&BlobContent::Available(b"x\0y\n".to_vec()))
    );
    assert_eq!(blobs.get("bbbb"), Some(&BlobContent::Missing));
}
