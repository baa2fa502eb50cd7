use filekaefer::lines::PendingLines;
use filekaefer::tail::{follow, ModificationType, StatefulFile};

fn all(n: usize) -> Vec<bool> {
    vec![true; n]
}

fn bytes(s: &str) -> Vec<u8> {
    s.as_bytes().to_vec()
}

fn lines(v: &[&str]) -> Vec<Vec<u8>> {
    v.iter().map(|s| bytes(s)).collect()
}

#[test]
fn new_starts_at_end_of_file() {
    let sf = StatefulFile::new("/var/log/app.log".to_string(), 17);
    assert_eq!(sf.cursor(), 17);
    assert_eq!(sf.old_size(), 17);
    assert_eq!(sf.seek_to_cursor(), 17);
    assert_eq!(sf.file_name(), "/var/log/app.log");
}

#[test]
fn classification_compares_sizes() {
    let sf = StatefulFile::new("f".to_string(), 10);
    assert_eq!(sf.modification_type(11), ModificationType::Added);
    assert_eq!(sf.modification_type(9), ModificationType::Removed);
    assert_eq!(sf.modification_type(10), ModificationType::NoChange);
    assert_eq!(sf.modification_type(0), ModificationType::Removed);
}

#[test]
fn cursor_operations() {
    let mut sf = StatefulFile::new("f".to_string(), 10);
    sf.reset_cursor();
    assert_eq!(sf.cursor(), 0);
    sf.update_cursor(7);
    assert_eq!(sf.cursor(), 7);
    sf.update_metadata(12);
    assert_eq!(sf.old_size(), 12);
    assert_eq!(sf.cursor(), 7);
}

#[test]
fn begin_cycle_resets_on_shrink_only() {
    let mut sf = StatefulFile::new("f".to_string(), 10);
    assert_eq!(sf.begin_cycle(15), ModificationType::Added);
    assert_eq!(sf.cursor(), 10);
    assert_eq!(sf.old_size(), 15);
    assert_eq!(sf.begin_cycle(15), ModificationType::NoChange);
    assert_eq!(sf.cursor(), 10);
    assert_eq!(sf.begin_cycle(3), ModificationType::Removed);
    assert_eq!(sf.cursor(), 0);
    assert_eq!(sf.old_size(), 3);
}

#[test]
fn scenario_a_two_lines_appended() {
    let mut sf = StatefulFile::new("f".to_string(), 0);
    let (kind, out) = follow(&mut sf, &bytes("a\nb\n"), &all(8));
    assert_eq!(kind, ModificationType::Added);
    assert_eq!(out, lines(&["a", "b"]));
    assert_eq!(sf.cursor(), 4);
}

#[test]
fn scenario_b_and_c_partial_line_waits() {
    let mut sf = StatefulFile::new("f".to_string(), 0);
    let (_, out) = follow(&mut sf, &bytes("a\nb\n"), &all(8));
    assert_eq!(out.len(), 2);
    assert_eq!(sf.cursor(), 4);
    let (kind, out) = follow(&mut sf, &bytes("a\nb\nc"), &all(8));
    assert_eq!(kind, ModificationType::Added);
    assert!(out.is_empty());
    assert_eq!(sf.cursor(), 4);
    let (kind, out) = follow(&mut sf, &bytes("a\nb\nc\n"), &all(8));
    assert_eq!(kind, ModificationType::Added);
    assert_eq!(out, lines(&["c"]));
    assert_eq!(sf.cursor(), 6);
}

#[test]
fn scenario_d_truncated_then_rewritten() {
    let mut sf = StatefulFile::new("f".to_string(), 0);
    follow(&mut sf, &bytes("a\nb\n"), &all(8));
    assert_eq!(sf.cursor(), 4);
    let (kind, out) = follow(&mut sf, &bytes("x\n"), &all(8));
    assert_eq!(kind, ModificationType::Removed);
    assert_eq!(out, lines(&["x"]));
    assert_eq!(sf.cursor(), 2);
}

#[test]
fn existing_content_is_not_shipped() {
    let mut sf = StatefulFile::new("f".to_string(), 4);
    let (kind, out) = follow(&mut sf, &bytes("old\nnew\n"), &all(8));
    assert_eq!(kind, ModificationType::Added);
    assert_eq!(out, lines(&["new"]));
    assert_eq!(sf.cursor(), 8);
}

#[test]
fn unchanged_size_forwards_nothing_new() {
    let mut sf = StatefulFile::new("f".to_string(), 4);
    let (kind, out) = follow(&mut sf, &bytes("a\nb\n"), &all(8));
    assert_eq!(kind, ModificationType::NoChange);
    assert!(out.is_empty());
    assert_eq!(sf.cursor(), 4);
}

#[test]
fn several_appends_between_notifications_arrive_in_order() {
    let mut sf = StatefulFile::new("f".to_string(), 0);
    let (_, out) = follow(&mut sf, &bytes("one\ntwo\n\nthree\nfo"), &all(8));
    assert_eq!(out, lines(&["one", "two", "", "three"]));
    assert_eq!(sf.cursor(), 15);
    let (_, out) = follow(&mut sf, &bytes("one\ntwo\n\nthree\nfour\nfive\n"), &all(8));
    assert_eq!(out, lines(&["four", "five"]));
    assert_eq!(sf.cursor(), 25);
}

#[test]
fn refused_first_line_keeps_cursor() {
    let mut sf = StatefulFile::new("f".to_string(), 0);
    let (_, out) = follow(&mut sf, &bytes("a\nb\n"), &vec![false, true]);
    assert!(out.is_empty());
    assert_eq!(sf.cursor(), 0);
    let (kind, out) = follow(&mut sf, &bytes("a\nb\n"), &all(2));
    assert_eq!(kind, ModificationType::NoChange);
    assert_eq!(out, lines(&["a", "b"]));
    assert_eq!(sf.cursor(), 4);
}

#[test]
fn refusal_midway_keeps_earlier_lines_shipped() {
    let mut sf = StatefulFile::new("f".to_string(), 0);
    let (_, out) = follow(&mut sf, &bytes("aa\nbb\ncc\n"), &vec![true, false, true]);
    assert_eq!(out, lines(&["aa"]));
    assert_eq!(sf.cursor(), 3);
    let (_, out) = follow(&mut sf, &bytes("aa\nbb\ncc\n"), &all(3));
    assert_eq!(out, lines(&["bb", "cc"]));
    assert_eq!(sf.cursor(), 9);
}

#[test]
fn missing_answer_counts_as_refusal() {
    let mut sf = StatefulFile::new("f".to_string(), 0);
    let (_, out) = follow(&mut sf, &bytes("a\nb\nc\n"), &all(1));
    assert_eq!(out, lines(&["a"]));
    assert_eq!(sf.cursor(), 2);
}

#[test]
fn empty_content_after_shrink() {
    let mut sf = StatefulFile::new("f".to_string(), 5);
    let (kind, out) = follow(&mut sf, &Vec::new(), &all(1));
    assert_eq!(kind, ModificationType::Removed);
    assert!(out.is_empty());
    assert_eq!(sf.cursor(), 0);
    assert_eq!(sf.old_size(), 0);
}

#[test]
fn pending_lines_step_by_step() {
    let mut p = PendingLines::new(bytes("ab\n\ncd"));
    assert_eq!(p.next_line(), Some(bytes("ab")));
    p.accept();
    assert_eq!(p.consumed(), 3);
    assert_eq!(p.next_line(), Some(Vec::new()));
    p.accept();
    assert_eq!(p.consumed(), 4);
    assert_eq!(p.next_line(), None);
}

#[test]
fn finish_cycle_moves_past_accepted_lines() {
    let mut sf = StatefulFile::new("f".to_string(), 2);
    sf.begin_cycle(8);
    let mut p = PendingLines::new(bytes("xy\nz\n"));
    p.accept();
    sf.finish_cycle(&p);
    assert_eq!(sf.cursor(), 5);
}
