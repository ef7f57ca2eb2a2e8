use cpu_scheduler::driver::load_workload;
use cpu_scheduler::process::{create_process, Kind, FIRST_ID};
use cpu_scheduler::workload::{clean_and_split_string, parse_workload, LoadError};

#[test]
fn split_drops_blank_tokens() {
    let t = clean_and_split_string("  C 10   I 5\tO 2  ".to_string());
    assert_eq!(t, vec!["C", "10", "I", "5", "O", "2"]);
    assert!(clean_and_split_string(String::new()).is_empty());
    assert!(clean_and_split_string("   ".to_string()).is_empty());
    assert_eq!(clean_and_split_string("STOPHERE  0".to_string()), vec!["STOPHERE", "0"]);
}

#[test]
fn split_on_every_whitespace_character() {
    let raw = " a\x0Bb\x0Cc\rd\te\nf\u{00A0}g\u{3000}h ";
    let t = clean_and_split_string(raw.to_string());
    let expected: Vec<String> = raw.split_whitespace().map(String::from).collect();
    assert_eq!(t, expected);
    assert_eq!(t, vec!["a", "b", "c", "d", "e", "f", "g", "h"]);
    assert_eq!(t.join(" "), "a b c d e f g h");
    assert_eq!(clean_and_split_string(t.join(" ")), t);
    assert_eq!(clean_and_split_string("a\x0Cb".to_string()), vec!["a", "b"]);
}

#[test]
fn form_feed_separates_history_tokens() {
    let recs = parse_workload("A\x0C0\nC\x0B3\x0CI 2\n").expect("parses");
    assert_eq!(recs[0].arrival, 0);
    assert_eq!(recs[0].history, vec![(Kind::Compute, 3), (Kind::InputIO, 2)]);
}

#[test]
fn reads_records_in_order() {
    let text = "A 0\nC 10 I 5 C 3 N 0\nB 7\nC 2 O 4 C 1 N 0\nSTOPHERE  0\n";
    let recs = parse_workload(text).expect("parses");
    assert_eq!(recs.len(), 2);
    assert_eq!(recs[0].name, "A");
    assert_eq!(recs[0].arrival, 0);
    assert_eq!(recs[0].history, vec![(Kind::Compute, 10), (Kind::InputIO, 5), (Kind::Compute, 3)]);
    assert_eq!(recs[1].name, "B");
    assert_eq!(recs[1].arrival, 7);
    assert_eq!(recs[1].history, vec![(Kind::Compute, 2), (Kind::OutputIO, 4), (Kind::Compute, 1)]);
}

#[test]
fn stop_line_after_first_record() {
    let text = "A 0\nC 3 N 0\nSTOPHERE  0\nB 0\nC 2 N 0\n";
    let recs = parse_workload(text).expect("parses");
    assert_eq!(recs.len(), 1);
    assert_eq!(recs[0].name, "A");
}

#[test]
fn n_line_ends_the_workload_too() {
    let recs = parse_workload("A 0\nC 3\nN 0\nB 0\nC 2\n").expect("parses");
    assert_eq!(recs.len(), 1);
}

#[test]
fn history_ends_at_line_end_or_sentinel() {
    let recs = parse_workload("A 0\nC 3 I 2\nB 1\nC 4 N 0 C 9\n").expect("parses");
    assert_eq!(recs.len(), 2);
    assert_eq!(recs[0].history, vec![(Kind::Compute, 3), (Kind::InputIO, 2)]);
    assert_eq!(recs[1].history, vec![(Kind::Compute, 4)]);
}

#[test]
fn blank_lines_between_records_are_passed_over() {
    let recs = parse_workload("\nA 0\nC 3\n\n\nB 1\nC 1\n").expect("parses");
    assert_eq!(recs.len(), 2);
    assert_eq!(recs[1].name, "B");
}

#[test]
fn crlf_line_ends() {
    let recs = parse_workload("A 0\r\nC 3 N 0\r\nSTOPHERE  0\r\n").expect("parses");
    assert_eq!(recs.len(), 1);
    assert_eq!(recs[0].history, vec![(Kind::Compute, 3)]);
}

#[test]
fn plus_sign_and_large_numbers() {
    let recs = parse_workload("A +4\nC 4294967295\n").expect("parses");
    assert_eq!(recs[0].arrival, 4);
    assert_eq!(recs[0].history, vec![(Kind::Compute, 4294967295)]);
    assert_eq!(parse_workload("A 0\nC 4294967296\n").err(), Some(LoadError::BadDuration { line: 2 }));
    assert_eq!(parse_workload("A 0\nC +\n").err(), Some(LoadError::BadDuration { line: 2 }));
}

#[test]
fn missing_arrival_is_refused() {
    assert_eq!(parse_workload("A\nC 3\n").err(), Some(LoadError::BadHeader { line: 1 }));
    assert_eq!(parse_workload("A x\nC 3\n").err(), Some(LoadError::BadHeader { line: 1 }));
    assert_eq!(
        parse_workload("A 0\nC 3\nB -1\nC 3\n").err(),
        Some(LoadError::BadHeader { line: 3 })
    );
}

#[test]
fn missing_history_is_refused() {
    assert_eq!(parse_workload("A 0\nC 3\nB 2").err(), Some(LoadError::MissingHistory { line: 3 }));
}

#[test]
fn unknown_kind_is_refused() {
    assert_eq!(parse_workload("A 0\nC 3 X 2\n").err(), Some(LoadError::BadKind { line: 2 }));
}

#[test]
fn bad_durations_are_refused() {
    assert_eq!(parse_workload("A 0\nC three\n").err(), Some(LoadError::BadDuration { line: 2 }));
    assert_eq!(parse_workload("A 0\nC 3 I\n").err(), Some(LoadError::BadDuration { line: 2 }));
    assert_eq!(parse_workload("A 0\nC 0\n").err(), Some(LoadError::BadDuration { line: 2 }));
}

#[test]
fn empty_history_is_refused() {
    assert_eq!(parse_workload("A 0\nN 0\n").err(), Some(LoadError::EmptyHistory { line: 2 }));
    assert_eq!(parse_workload("A 0\n   \n").err(), Some(LoadError::EmptyHistory { line: 2 }));
}

#[test]
fn empty_text_has_no_records() {
    assert!(parse_workload("").expect("parses").is_empty());
}

#[test]
fn loaded_processes_get_ids_in_order() {
    let m = load_workload("A 0\nC 3\nB 1\nI 2 C 1\nC 2\nO 1\n").expect("loads");
    assert_eq!(m.table.len(), 3);
    assert_eq!(m.table[0].id, FIRST_ID);
    assert_eq!(m.table[1].id, FIRST_ID + 1);
    assert_eq!(m.table[2].id, FIRST_ID + 2);
    assert_eq!(m.table[2].name, "C");
    let entry: Vec<usize> = m.entryq.iter().copied().collect();
    assert_eq!(entry, vec![0, 1, 2]);
    assert!(m.readyq.is_empty());
    assert_eq!(m.active, None);
}

#[test]
fn load_reports_parse_errors() {
    assert_eq!(load_workload("A 0\nC 3 Q 1\n").err(), Some(LoadError::BadKind { line: 2 }));
}

#[test]
fn created_process_starts_at_zero() {
    let p = create_process("P".to_string(), 7, 3, vec![(Kind::Compute, 2)]);
    assert_eq!(p.name, "P");
    assert_eq!(p.id, 7);
    assert_eq!(p.arrival_time, 3);
    assert_eq!(p.history, vec![(Kind::Compute, 2)]);
    assert_eq!(p.history_index, 0);
    assert_eq!(p.start_time, 0);
    assert_eq!(p.cpu_total, 0);
    assert_eq!(p.io_total, (0, 0));
    assert_eq!(p.end_time, 0);
    assert_eq!(p.wait_time, 0);
}
