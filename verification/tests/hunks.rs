use ziff::hunks::{count_changes, diffable_sides, file_diff, range, unchanged_diff};
use ziff::types::{DiffHunk, LineKind};

/// The hunks as `git diff` prints them, without the file header.
fn as_unified(hunks: &[DiffHunk]) -> String {
    let mut out = String::new();
    for hunk in hunks {
        out.push_str(&hunk.header);
        out.push('\n');
        for line in &hunk.lines {
            let mark = match line.kind {
                LineKind::Context => ' ',
                LineKind::Add => '+',
                LineKind::Del => '-',
            };
            out.push(mark);
            out.push_str(&line.content);
            out.push('\n');
        }
    }
    out
}

fn numbered(n: usize, edit: impl Fn(usize) -> Option<String>) -> String {
    (1..=n)
        .map(|i| edit(i).unwrap_or_else(|| format!("line {i}\n")))
        .collect()
}

#[test]
fn a_new_file_is_one_hunk_starting_at_line_one() {
    let diff = file_diff(b"", b"alpha\nbeta\n");
    assert_eq!(diff.hunks[0].header, "@@ -0,0 +1,2 @@");
    assert_eq!(
        diff.hunks[0].lines.iter().map(|l| (l.old_no, l.new_no)).collect::<Vec<_>>(),
        [(None, Some(1)), (None, Some(2))]
    );
}

#[test]
fn a_deleted_line_carries_no_new_side_number() {
    let diff = file_diff(b"one\ntwo\nthree\n", b"one\nthree\n");
    let del = diff.hunks[0]
        .lines
        .iter()
        .find(|line| matches!(line.kind, LineKind::Del))
        .expect("a del line");
    assert_eq!((del.old_no, del.new_no, del.content.as_str()), (Some(2), None, "two"));
}

#[test]
fn context_lines_are_numbered_on_both_sides() {
    let diff = file_diff(b"one\ntwo\nthree\n", b"zero\none\ntwo\nthree\n");
    let numbers: Vec<_> = diff.hunks[0].lines.iter().map(|l| (l.old_no, l.new_no)).collect();
    assert_eq!(
        numbers,
        [(None, Some(1)), (Some(1), Some(2)), (Some(2), Some(3)), (Some(3), Some(4))]
    );
}

#[test]
fn changes_closer_than_twice_the_context_are_one_hunk() {
    let before = numbered(30, |_| None);
    let after = numbered(30, |i| if i == 10 || i == 17 { Some(format!("EDITED {i}\n")) } else { None });
    let diff = file_diff(before.as_bytes(), after.as_bytes());
    assert_eq!(diff.hunks.len(), 1);
    assert_eq!(diff.hunks[0].header, "@@ -7,14 +7,14 @@");
}

#[test]
fn a_one_line_side_leaves_the_count_out_of_the_header() {
    let diff = file_diff(b"only\n", b"CHANGED\n");
    assert_eq!(diff.hunks[0].header, "@@ -1 +1 @@");
}

#[test]
fn hunks_match_what_git_diff_prints() {
    let before = numbered(40, |_| None);
    let after = numbered(40, |i| match i {
        2 => Some("EDITED 2\n".to_string()),
        20 => Some("EDITED 20\n".to_string()),
        _ => None,
    });
    let diff = file_diff(before.as_bytes(), after.as_bytes());
    assert_eq!(
        as_unified(&diff.hunks),
        "@@ -1,5 +1,5 @@\n line 1\n-line 2\n+EDITED 2\n line 3\n line 4\n line 5\n\
         @@ -17,7 +17,7 @@\n line 17\n line 18\n line 19\n-line 20\n+EDITED 20\n line 21\n line 22\n line 23\n"
    );
}

#[test]
fn a_renamed_file_diffs_against_where_it_came_from() {
    let before = numbered(200, |_| None);
    let after = numbered(200, |i| if i == 5 { Some("EDITED\n".to_string()) } else { None });
    let diff = file_diff(before.as_bytes(), after.as_bytes());
    assert_eq!(
        as_unified(&diff.hunks),
        "@@ -2,7 +2,7 @@\n line 2\n line 3\n line 4\n-line 5\n+EDITED\n line 6\n line 7\n line 8\n"
    );
}

#[test]
fn a_file_deleted_entirely_is_one_hunk_ending_at_line_zero() {
    let diff = file_diff(b"one\ntwo\n", b"");
    assert_eq!(diff.hunks.len(), 1);
    assert_eq!(diff.hunks[0].header, "@@ -1,2 +0,0 @@");
}

#[test]
fn identical_sides_have_no_hunks() {
    let diff = file_diff(b"same\ntext\n", b"same\ntext\n");
    assert!(!diff.binary);
    assert!(diff.hunks.is_empty());
}

#[test]
fn both_sides_are_handed_back_in_full() {
    let diff = file_diff(b"one\ntwo\n", b"one\nTWO\n");
    assert_eq!(diff.old_text, "one\ntwo\n");
    assert_eq!(diff.new_text, "one\nTWO\n");
}

#[test]
fn a_binary_file_says_so_rather_than_showing_an_empty_diff() {
    let diff = file_diff(b"", &[0x89, b'P', b'N', b'G']);
    assert!(diff.binary);
    assert!(diff.hunks.is_empty());
    assert!(diff.old_text.is_empty() && diff.new_text.is_empty());
}

#[test]
fn counts_added_and_deleted_lines() {
    let changes = count_changes(b"one\ntwo\nthree\n", b"one\nTWO\nthree\nfour\n");
    assert_eq!((changes.add, changes.del), (2, 1));
}

#[test]
fn a_move_with_edits_counts_only_the_edits() {
    let before = numbered(200, |_| None);
    let after = numbered(200, |i| if i == 5 { Some("EDITED\n".to_string()) } else { None });
    let changes = count_changes(before.as_bytes(), after.as_bytes());
    assert_eq!((changes.add, changes.del), (1, 1));
}

#[test]
fn a_binary_file_has_no_lines_to_count() {
    let changes = count_changes(b"", &[0x89, b'P', b'N', b'G']);
    assert_eq!((changes.add, changes.del), (0, 0));
}

#[test]
fn the_counts_agree_with_the_hunks() {
    let before = numbered(40, |_| None);
    let after = numbered(40, |i| match i {
        3 => Some("EDITED 3\nINSERTED\n".to_string()),
        30 => Some(String::new()),
        _ => None,
    });
    let diff = file_diff(before.as_bytes(), after.as_bytes());
    let changes = count_changes(before.as_bytes(), after.as_bytes());
    let adds = diff.hunks.iter().flat_map(|h| &h.lines).filter(|l| matches!(l.kind, LineKind::Add)).count();
    let dels = diff.hunks.iter().flat_map(|h| &h.lines).filter(|l| matches!(l.kind, LineKind::Del)).count();
    assert_eq!((changes.add as usize, changes.del as usize), (adds, dels));
    assert_eq!((changes.add, changes.del), (2, 2));
}

#[test]
fn a_range_of_one_line_has_no_count() {
    assert_eq!(range(0, 1), "1");
}

#[test]
fn an_empty_range_names_the_line_before_it() {
    assert_eq!(range(4, 0), "4,0");
}

#[test]
fn a_range_names_its_first_line_and_count() {
    assert_eq!(range(6, 14), "7,14");
}

#[test]
fn an_unchanged_path_has_no_hunks_and_is_not_binary() {
    let diff = unchanged_diff();
    assert!(diff.hunks.is_empty());
    assert!(!diff.binary);
}

/// The `(start, count)` pairs of a `@@ -a,b +c,d @@` header, counts defaulting to 1.
fn header_ranges(header: &str) -> ((u32, u32), (u32, u32)) {
    let inner = header.trim_start_matches("@@ -").trim_end_matches(" @@");
    let (old, new) = inner.split_once(" +").expect("two ranges");
    let parse = |r: &str| match r.split_once(',') {
        Some((s, c)) => (s.parse().unwrap(), c.parse().unwrap()),
        None => (r.parse().unwrap(), 1),
    };
    (parse(old), parse(new))
}

#[test]
fn each_header_names_exactly_the_lines_its_hunk_shows() {
    let before = numbered(60, |_| None);
    let after = numbered(60, |i| match i {
        1 => Some("FIRST\n".to_string()),
        20 => Some(String::new()),
        21 => Some("TWENTY-ONE\nEXTRA\n".to_string()),
        60 => Some("LAST\n".to_string()),
        _ => None,
    });
    let diff = file_diff(before.as_bytes(), after.as_bytes());
    assert_eq!(diff.hunks.len(), 3);
    for hunk in &diff.hunks {
        let ((os, oc), (ns, nc)) = header_ranges(&hunk.header);
        let old: Vec<u32> = hunk.lines.iter().filter_map(|l| l.old_no).collect();
        let new: Vec<u32> = hunk.lines.iter().filter_map(|l| l.new_no).collect();
        let first_old = if oc == 0 { os + 1 } else { os };
        let first_new = if nc == 0 { ns + 1 } else { ns };
        assert_eq!(old, (first_old..first_old + oc).collect::<Vec<_>>(), "{}", hunk.header);
        assert_eq!(new, (first_new..first_new + nc).collect::<Vec<_>>(), "{}", hunk.header);
    }
}

#[test]
fn hunks_come_in_order_and_never_touch() {
    let before = numbered(60, |_| None);
    let after = numbered(60, |i| if i % 9 == 0 { Some(format!("EDITED {i}\n")) } else { None });
    let diff = file_diff(before.as_bytes(), after.as_bytes());
    for pair in diff.hunks.windows(2) {
        let last_old = pair[0].lines.iter().filter_map(|l| l.old_no).max().unwrap();
        let first_old = pair[1].lines.iter().filter_map(|l| l.old_no).min().unwrap();
        assert!(last_old + 1 < first_old);
        let last_new = pair[0].lines.iter().filter_map(|l| l.new_no).max().unwrap();
        let first_new = pair[1].lines.iter().filter_map(|l| l.new_no).min().unwrap();
        assert!(last_new + 1 < first_new);
    }
}

#[test]
fn a_diff_line_is_the_line_file_view_shows_under_its_number() {
    let new = "zero\none\r\nTWO\nthree\n";
    let diff = file_diff(b"one\ntwo\nthree\n", new.as_bytes());
    let view = ziff::content::split_lines(new);
    for line in diff.hunks.iter().flat_map(|h| &h.lines) {
        if let Some(n) = line.new_no {
            assert_eq!(line.content, view[n as usize - 1]);
        }
    }
}

#[test]
fn ordinary_and_binary_sides_can_be_diffed() {
    assert!(diffable_sides(b"one\ntwo\n", b"one\n"));
    assert!(diffable_sides(&[0x89, b'P', b'N', b'G'], b"text\n"));
    assert!(diffable_sides(b"", b""));
}

#[test]
fn a_gap_longer_than_both_context_runs_starts_a_new_hunk() {
    let before = numbered(40, |_| None);
    let close = numbered(40, |i| if i == 10 || i == 17 { Some(format!("EDITED {i}\n")) } else { None });
    let apart = numbered(40, |i| if i == 10 || i == 18 { Some(format!("EDITED {i}\n")) } else { None });
    assert_eq!(file_diff(before.as_bytes(), close.as_bytes()).hunks.len(), 1);
    assert_eq!(file_diff(before.as_bytes(), apart.as_bytes()).hunks.len(), 2);
}

#[test]
fn the_hunks_together_show_every_change_once() {
    let before = numbered(60, |_| None);
    let after = numbered(60, |i| if i % 7 == 0 { Some(format!("EDITED {i}\n")) } else { None });
    let diff = file_diff(before.as_bytes(), after.as_bytes());
    let deleted: Vec<u32> = diff
        .hunks
        .iter()
        .flat_map(|h| &h.lines)
        .filter(|l| matches!(l.kind, LineKind::Del))
        .filter_map(|l| l.old_no)
        .collect();
    assert_eq!(deleted, (1..=60).filter(|i| i % 7 == 0).collect::<Vec<u32>>());
}
