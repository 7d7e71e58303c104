use texttab::command::{execute, Outcome};
use texttab::mycsv::{parse_csv, MyCsv, ParseError};
use texttab::transforms::{lowercase, nospaces, reverse, slugify_input, trim, uppercase};

#[test]
fn mismatch_scenario() {
    let lines = vec![
        "a,bb,ccc".to_string(),
        "d,ee,fff".to_string(),
        "g,hh".to_string(),
    ];
    let (table, outcome) = parse_csv("input.csv".to_string(), &lines, Some(','));
    assert_eq!(table.columns_count, 3);
    assert_eq!(table.sizes, vec![1, 2, 3]);
    assert_eq!(table.lines.len(), 2);
    assert_eq!(table.lines_count, 1);
    assert_eq!(
        outcome,
        Err(ParseError::ColumnCountMismatch {
            expected: 3,
            actual: 2
        })
    );
}

#[test]
fn uniform_round_trip() {
    let lines = vec!["x,y".to_string(), "aa,b".to_string(), "c,dd".to_string()];
    let (table, outcome) = parse_csv("t.csv".to_string(), &lines, None);
    assert!(outcome.is_ok());
    assert_eq!(table.columns_count, 2);
    assert_eq!(table.lines_count, 2);
    assert_eq!(table.lines.len(), 3);
    assert_eq!(table.sizes, vec![2, 2]);
}

#[test]
fn widths_grow_to_maxima() {
    let lines = vec!["a,b".to_string(), "aaa,b".to_string(), "c,dddd".to_string()];
    let (table, outcome) = parse_csv("t.csv".to_string(), &lines, None);
    assert!(outcome.is_ok());
    assert_eq!(table.sizes, vec![3, 4]);
}

#[test]
fn mismatch_halts_before_later_valid_lines() {
    let lines = vec!["a,b".to_string(), "x".to_string(), "c,d".to_string()];
    let (table, outcome) = parse_csv("t.csv".to_string(), &lines, None);
    assert_eq!(
        outcome,
        Err(ParseError::ColumnCountMismatch {
            expected: 2,
            actual: 1
        })
    );
    assert_eq!(table.lines.len(), 1);
    assert_eq!(table.lines_count, 0);
}

#[test]
fn empty_terminal_line_halts() {
    let lines = vec!["a,b".to_string(), "\r\n".to_string(), "c,d".to_string()];
    let (table, outcome) = parse_csv("t.csv".to_string(), &lines, None);
    assert_eq!(outcome, Err(ParseError::EmptyTerminalLine));
    assert_eq!(table.lines.len(), 1);
}

#[test]
fn parse_line_rejects_terminal_sentinel() {
    let mut table = MyCsv::new("t.csv".to_string(), None).unwrap();
    assert_eq!(table.parse_line("\r\n"), Err(ParseError::EmptyTerminalLine));
    assert_eq!(table.lines.len(), 0);
    assert!(!table.initialized);
}

#[test]
fn trailing_crlf_is_stripped() {
    let lines = vec!["a,b\r\n".to_string()];
    let (table, outcome) = parse_csv("t.csv".to_string(), &lines, None);
    assert!(outcome.is_ok());
    assert_eq!(table.lines[0], vec!["a".to_string(), "b".to_string()]);
    assert_eq!(table.sizes, vec![1, 1]);
}

#[test]
fn custom_separator() {
    let lines = vec!["a;bb".to_string(), "cc;d".to_string()];
    let (table, outcome) = parse_csv("t.csv".to_string(), &lines, Some(';'));
    assert!(outcome.is_ok());
    assert_eq!(table.columns_count, 2);
    assert_eq!(table.sizes, vec![2, 2]);
}

#[test]
fn single_field_line() {
    let lines = vec!["abc".to_string()];
    let (table, outcome) = parse_csv("t.csv".to_string(), &lines, None);
    assert!(outcome.is_ok());
    assert_eq!(table.columns_count, 1);
    assert_eq!(table.sizes, vec![3]);
    assert_eq!(table.lines_count, 0);
}

#[test]
fn render_exact_and_repeatable() {
    let lines = vec!["a,bb".to_string(), "c,dd".to_string()];
    let (table, outcome) = parse_csv("t.csv".to_string(), &lines, None);
    assert!(outcome.is_ok());
    let expected = "Total lines: 1, Total columns: 2\n------\n|a|bb|\n------\n|c|dd|\n------\n";
    assert_eq!(table.render(), expected);
    assert_eq!(table.render(), expected);
}

#[test]
fn render_pads_fields_to_column_width() {
    let lines = vec!["aaa,b".to_string(), "c,dd".to_string()];
    let (table, outcome) = parse_csv("t.csv".to_string(), &lines, None);
    assert!(outcome.is_ok());
    let expected =
        "Total lines: 1, Total columns: 2\n--------\n|aaa|b |\n--------\n|c  |dd|\n--------\n";
    assert_eq!(table.render(), expected);
}

#[test]
fn render_partial_table_after_mismatch() {
    let lines = vec![
        "a,bb,ccc".to_string(),
        "d,ee,fff".to_string(),
        "g,hh".to_string(),
    ];
    let (table, _) = parse_csv("t.csv".to_string(), &lines, None);
    let expected = "Total lines: 1, Total columns: 3\n----------\n|a|bb|ccc|\n----------\n|d|ee|fff|\n----------\n";
    assert_eq!(table.render(), expected);
}

#[test]
fn render_unparsed_table_is_degenerate() {
    let table = MyCsv::new("t.csv".to_string(), None).unwrap();
    assert_eq!(table.render(), "Total lines: 0, Total columns: 0\n-\n");
}

#[test]
fn lowercase_folds() {
    assert_eq!(lowercase("ABC Def".to_string()), "abc def");
}

#[test]
fn uppercase_folds() {
    assert_eq!(uppercase("abc Def".to_string()), "ABC DEF");
}

#[test]
fn nospaces_removes_spaces() {
    assert_eq!(nospaces("a b  c ".to_string()), "abc");
}

#[test]
fn trim_strips_both_ends() {
    assert_eq!(trim("  hi there \n".to_string()), "hi there");
}

#[test]
fn reverse_drops_embedded_newline() {
    assert_eq!(reverse("ab\ncd".to_string()), "dcba");
}

#[test]
fn slugify_hello_world() {
    assert_eq!(slugify_input("Hello, World!".to_string()), "hello-world");
}

#[test]
fn execute_stop() {
    match execute("stop") {
        Outcome::Stop => {}
        _ => panic!("expected the stop outcome"),
    }
}

#[test]
fn execute_without_argument() {
    match execute("lowercase") {
        Outcome::NotEnoughData => {}
        _ => panic!("expected the not-enough-data outcome"),
    }
}

#[test]
fn execute_unsupported_operation() {
    match execute("frobnicate x") {
        Outcome::Unsupported { command } => assert_eq!(command, "frobnicate"),
        _ => panic!("expected the unsupported outcome"),
    }
}

#[test]
fn execute_lowercase() {
    match execute("lowercase Hello World") {
        Outcome::Done { output } => assert_eq!(output, "hello world"),
        _ => panic!("expected a transform result"),
    }
}

#[test]
fn execute_reverse() {
    match execute("reverse abc") {
        Outcome::Done { output } => assert_eq!(output, "cba"),
        _ => panic!("expected a transform result"),
    }
}

#[test]
fn execute_csv_without_separator() {
    match execute("csv data.csv") {
        Outcome::CsvRequest {
            file_name,
            separator,
        } => {
            assert_eq!(file_name, "data.csv");
            assert_eq!(separator, None);
        }
        _ => panic!("expected a table-parse request"),
    }
}

#[test]
fn execute_csv_with_separator() {
    match execute("csv data.csv ;") {
        Outcome::CsvRequest {
            file_name,
            separator,
        } => {
            assert_eq!(file_name, "data.csv");
            assert_eq!(separator, Some(';'));
        }
        _ => panic!("expected a table-parse request"),
    }
}

#[test]
fn execute_csv_with_trailing_space() {
    match execute("csv data.csv ") {
        Outcome::CsvRequest {
            file_name,
            separator,
        } => {
            assert_eq!(file_name, "data.csv");
            assert_eq!(separator, None);
        }
        _ => panic!("expected a table-parse request"),
    }
}
