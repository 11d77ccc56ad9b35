use parser_lib::{show_errors, ErrorFile, ParseError, ReportEntry, Word, WordValue};

fn at(expected: &str, found: &str, line: usize, from: usize, to: usize) -> ParseError {
    ParseError {
        expected: expected.to_string(),
        got: Some(Word {
            value: WordValue::Word(found.to_string()),
            line,
            column_from: from,
            column_to: to,
        }),
        unlikely: false,
    }
}

fn at_end(expected: &str) -> ParseError {
    ParseError {
        expected: expected.to_string(),
        got: None,
        unlikely: false,
    }
}

#[test]
fn one_error_one_entry() {
    let shown = show_errors("first\nlet x = ;\n", vec![at("<<integer>>", ";", 1, 8, 9)], true);
    assert_eq!(
        shown,
        vec![ReportEntry {
            line: 1,
            source: Some("let x = ;".to_string()),
            indent: 8,
            width: 1,
            message: "Expected <<integer>> but got ;".to_string(),
            at_end: false,
        }]
    );
}

#[test]
fn errors_at_one_place_are_merged() {
    let shown = show_errors(
        "a\nb c\n",
        vec![
            at("x", "c", 1, 2, 3),
            at("y", "c", 1, 2, 3),
            at("x", "c", 1, 2, 3),
            at("z", "c", 1, 2, 3),
        ],
        true,
    );
    assert_eq!(shown.len(), 1);
    assert_eq!(shown[0].message, "Expected x or y or z but got c");
}

#[test]
fn the_same_span_with_another_text_is_another_place() {
    let shown = show_errors(
        "a\nb c\n",
        vec![at("x", "c", 1, 2, 3), at("y", "d", 1, 2, 3)],
        true,
    );
    let messages: Vec<&str> = shown.iter().map(|entry| entry.message.as_str()).collect();
    assert_eq!(
        messages,
        vec!["Expected x but got c", "Expected y but got d"]
    );
}

#[test]
fn entries_come_by_line_and_from_the_right() {
    let shown = show_errors(
        "l0\nl1 l1 l1\nl2 l2\n",
        vec![
            at("a", "l2", 2, 0, 2),
            at("b", "l1", 1, 0, 2),
            at("c", "l1", 1, 6, 8),
            at("d", "l1", 1, 3, 5),
            at("e", "l1", 1, 3, 4),
            at("f", "l2", 2, 3, 5),
        ],
        true,
    );
    let order: Vec<(usize, usize, usize)> = shown
        .iter()
        .map(|entry| (entry.line, entry.indent, entry.width))
        .collect();
    assert_eq!(
        order,
        vec![(1, 6, 2), (1, 3, 1), (1, 3, 2), (1, 0, 2), (2, 3, 2), (2, 0, 2)]
    );
}

#[test]
fn the_end_of_the_input_has_no_source_line() {
    let shown = show_errors("let x =", vec![at_end("<<integer>>"), at_end("(")], true);
    assert_eq!(
        shown,
        vec![ReportEntry {
            line: 0,
            source: None,
            indent: 0,
            width: 1,
            message: "Expected <<integer>> or ( but got <<nothing>>".to_string(),
            at_end: true,
        }]
    );
}

#[test]
fn a_line_that_the_source_lacks_has_no_text() {
    let shown = show_errors("a\nb", vec![at("x", "y", 2, 0, 1), at("x", "y", 1, 0, 0)], true);
    assert_eq!(shown[0].source, Some("b".to_string()));
    assert_eq!(shown[0].width, 1);
    assert_eq!(shown[1].source, None);
}

#[test]
fn a_group_is_shown_by_its_brackets() {
    let error = ParseError {
        expected: "x".to_string(),
        got: Some(Word {
            value: WordValue::Brackets { open: '(', inner: vec![], close: ')' },
            line: 1,
            column_from: 0,
            column_to: 2,
        }),
        unlikely: true,
    };
    let shown = show_errors("\n()", vec![error], true);
    assert_eq!(shown[0].message, "Expected x but got ()");
    assert_eq!(shown[0].source, Some("()".to_string()));
}

#[test]
fn lines_end_at_line_feeds() {
    let mut file = ErrorFile::new("zero\r\none\n\nthree\r");
    file.insert(at("x", "y", 1, 0, 1));
    file.insert_all(vec![at("x", "y", 2, 0, 1), at("x", "y", 3, 0, 1)]);
    file.insert(at("w", "y", 1, 0, 1));
    let shown = file.report(false);
    let sources: Vec<Option<&str>> = shown.iter().map(|entry| entry.source.as_deref()).collect();
    assert_eq!(sources, vec![Some("one"), Some(""), Some("three\r")]);
    assert_eq!(shown[0].message, "Expected x or w but got y");
}

#[test]
fn nothing_to_show() {
    assert_eq!(show_errors("a", vec![], true), vec![]);
    assert_eq!(ErrorFile::new("").report(true), vec![]);
}

fn unlikely(mut error: ParseError) -> ParseError {
    error.unlikely = true;
    error
}

#[test]
fn entries_of_unlikely_errors_are_shown_on_request_only() {
    let errors = vec![
        unlikely(at("a", "x", 1, 0, 1)),
        at("b", "y", 1, 2, 3),
        unlikely(at("c", "y", 1, 2, 3)),
        unlikely(at("d", "z", 2, 0, 1)),
        unlikely(at("e", "z", 2, 0, 1)),
    ];
    let all = show_errors("l0\nx y\nz", errors.clone(), true);
    let messages: Vec<&str> = all.iter().map(|entry| entry.message.as_str()).collect();
    assert_eq!(
        messages,
        vec![
            "Expected b or c but got y",
            "Expected a but got x",
            "Expected d or e but got z"
        ]
    );
    let likely = show_errors("l0\nx y\nz", errors, false);
    let messages: Vec<&str> = likely.iter().map(|entry| entry.message.as_str()).collect();
    assert_eq!(messages, vec!["Expected b or c but got y"]);
}

#[test]
fn one_likely_error_makes_the_entry_likely() {
    let mut file = ErrorFile::new("l0\nx");
    file.insert(unlikely(at("a", "x", 1, 0, 1)));
    assert!(file.report(false).is_empty());
    file.insert(at("a", "x", 1, 0, 1));
    let shown = file.report(false);
    assert_eq!(shown.len(), 1);
    assert_eq!(shown[0].message, "Expected a but got x");
}

#[test]
fn an_error_on_the_first_line_is_shown_with_its_line() {
    let shown = show_errors("let x = ;\nnext", vec![at("<<integer>>", ";", 0, 8, 9)], true);
    assert_eq!(
        shown,
        vec![ReportEntry {
            line: 0,
            source: Some("let x = ;".to_string()),
            indent: 8,
            width: 1,
            message: "Expected <<integer>> but got ;".to_string(),
            at_end: false,
        }]
    );
}

#[test]
fn the_end_of_the_input_is_told_from_the_first_column() {
    let shown = show_errors(
        "x",
        vec![at_end("a"), at("b", "<<nothing>>", 0, 0, 0), at_end("c")],
        true,
    );
    let entries: Vec<(bool, Option<&str>, &str)> = shown
        .iter()
        .map(|entry| (entry.at_end, entry.source.as_deref(), entry.message.as_str()))
        .collect();
    assert_eq!(
        entries,
        vec![
            (true, None, "Expected a or c but got <<nothing>>"),
            (false, Some("x"), "Expected b but got <<nothing>>"),
        ]
    );
}
