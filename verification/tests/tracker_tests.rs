use cwc::ast::Program;
use cwc::frontend_types::{has_failures, DependencyTracker, FileState, ParseError, Span, WorkerStep};

#[test]
fn a_dependency_is_added_once() {
    let mut t = DependencyTracker::new();
    assert!(t.add_dependency("main.cara".to_string()));
    assert!(!t.add_dependency("main.cara".to_string()));
    assert!(t.add_dependency("lib.cara".to_string()));
    assert_eq!(t.files.len(), 2);
    assert_eq!(t.queue.len(), 2);
    assert!(matches!(t.files[0].1, FileState::Pending));
}

#[test]
fn workers_take_wait_and_finish() {
    let mut t = DependencyTracker::new();
    t.add_dependency("main.cara".to_string());
    match t.next_step() {
        WorkerStep::Work(p) => assert_eq!(p, "main.cara"),
        _ => panic!("expected work"),
    }
    assert!(matches!(t.files[0].1, FileState::Processing));
    assert_eq!(t.active_workers, 1);
    assert!(matches!(t.next_step(), WorkerStep::Wait));
    t.finish_file("main.cara".to_string(), Some(Program { statements: vec![], span: Span::default() }), vec![], false);
    assert!(matches!(t.files[0].1, FileState::Done(_)));
    assert_eq!(t.active_workers, 0);
    assert!(matches!(t.next_step(), WorkerStep::Finish));
    assert!(!has_failures(&t.files));
}

#[test]
fn errors_or_an_unreadable_file_fail_it() {
    let mut t = DependencyTracker::new();
    t.add_dependency("a.cara".to_string());
    t.add_dependency("b.cara".to_string());
    t.next_step();
    t.next_step();
    let err = ParseError { span: Span { start: 1, end: 2 }, message: "bad".to_string() };
    t.finish_file("a.cara".to_string(), None, vec![err], false);
    t.finish_file("b.cara".to_string(), Some(Program { statements: vec![], span: Span::default() }), vec![], true);
    assert!(matches!(&t.files[0].1, FileState::Failed(e) if e.len() == 1));
    assert!(matches!(&t.files[1].1, FileState::Failed(e) if e.is_empty()));
    assert!(has_failures(&t.files));
}

#[test]
fn error_location_counts_lines_and_characters() {
    let source = "ab\ncd\u{e9} f\nlast";
    let err = ParseError { span: Span { start: 8, end: 9 }, message: "x".to_string() };
    assert!(err.can_locate(source));
    let loc = err.locate(source);
    assert_eq!(loc.line_number, 2);
    assert_eq!(loc.line_start, 3);
    assert_eq!(loc.line_len, 6);
    assert_eq!(&source[loc.line_start..loc.line_start + loc.line_len], "cd\u{e9} f");
    assert_eq!(loc.column, 4);
    assert_eq!(loc.width, 1);
}

#[test]
fn error_width_stops_at_the_end_of_its_line() {
    let source = "let x = 1\nnext";
    let err = ParseError { span: Span { start: 4, end: 12 }, message: "x".to_string() };
    let loc = err.locate(source);
    assert_eq!(loc.line_number, 1);
    assert_eq!(loc.column, 4);
    assert_eq!(loc.width, 5);
    let empty = ParseError { span: Span { start: 4, end: 4 }, message: "x".to_string() };
    assert_eq!(empty.locate(source).width, 1);
}

#[test]
fn error_inside_a_character_cannot_be_located() {
    let source = "\u{e9}x";
    let err = ParseError { span: Span { start: 1, end: 2 }, message: "x".to_string() };
    assert!(!err.can_locate(source));
}
