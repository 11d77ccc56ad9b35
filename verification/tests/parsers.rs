use parser_lib::{
    classify_text, type_name_shape, value_name_shape,
    parse_integer, parse_text, parse_to_type, same_text, split_words, BracketPair,
    NonEmptyStartTextVec, NonEmptyVec, ParseError, ParseResult, Parser, SeparatedBy,
    SeparatedBySeparator, SeparatedOnce, SquareBrackets, StartTextVec, TypeName, ValueName,
    VecWindow, Word, WordValue,
};

#[derive(Debug, PartialEq)]
struct Semicolon;

impl SeparatedBySeparator for Semicolon {
    const SEPARATOR: &'static str = ";";
}

#[derive(Debug, PartialEq)]
struct Let {
    name: String,
}

impl Parser<Let> for Let {
    type Value = ();

    fn parse<'l>(words: VecWindow<'l, Word>) -> ParseResult<'l, Let> {
        let ParseResult(keyword, words, errors) = parse_text(words, "let");
        if keyword.is_none() {
            return ParseResult(None, words, errors);
        }
        let ParseResult(name, words, errors) = ValueName::parse(words);
        ParseResult(name.map(|name| Let { name: name.text }), words, errors)
    }

    fn starting_keywords() -> Vec<&'static str> {
        vec!["let"]
    }
}

fn square() -> Vec<BracketPair> {
    vec![BracketPair { open: '[', close: ']' }]
}

fn expected(errors: &[ParseError]) -> Vec<&str> {
    errors.iter().map(|error| error.expected.as_str()).collect()
}

fn got(error: &ParseError) -> Option<String> {
    error.got.as_ref().map(|word| word.display_text())
}

#[test]
fn integers_are_read_exactly() {
    assert_eq!(parse_integer("0"), Some(0));
    assert_eq!(parse_integer("123"), Some(123));
    assert_eq!(parse_integer("+5"), Some(5));
    assert_eq!(parse_integer("-17"), Some(-17));
    assert_eq!(parse_integer("-0"), Some(0));
    assert_eq!(parse_integer("007"), Some(7));
    assert_eq!(parse_integer("9223372036854775807"), Some(i64::MAX));
    assert_eq!(parse_integer("-9223372036854775808"), Some(i64::MIN));
}

#[test]
fn what_is_not_an_integer_is_refused() {
    assert_eq!(parse_integer(""), None);
    assert_eq!(parse_integer("-"), None);
    assert_eq!(parse_integer("+"), None);
    assert_eq!(parse_integer("+-5"), None);
    assert_eq!(parse_integer("12a"), None);
    assert_eq!(parse_integer("1_0"), None);
    assert_eq!(parse_integer(" 1"), None);
    assert_eq!(parse_integer("1.5"), None);
    assert_eq!(parse_integer("\u{663}"), None);
    assert_eq!(parse_integer("9223372036854775808"), None);
    assert_eq!(parse_integer("-9223372036854775809"), None);
    assert_eq!(parse_integer("99999999999999999999999999"), None);
    assert_eq!(parse_integer("99999999999999999999999999x"), None);
}

#[test]
fn integers_agree_with_the_standard_library() {
    let samples = [
        "42", "-42", "+42", "", "-", "0000", "9223372036854775807", "9223372036854775808",
        "-9223372036854775808", "-9223372036854775809", "4 2", "४२", "0x10", "1e3",
    ];
    for sample in samples {
        assert_eq!(parse_integer(sample), sample.parse::<i64>().ok());
    }
}

#[test]
fn texts_are_compared_by_their_characters() {
    assert!(same_text("", ""));
    assert!(same_text("let", "let"));
    assert!(!same_text("let", "le"));
    assert!(!same_text("let", "lit"));
    assert!(same_text("é", "é"));
}

#[test]
fn a_leaf_error_names_what_was_expected_and_what_was_found() {
    let words = split_words("hello 1", vec![]);
    let result = i64::parse((&words).into());
    assert_eq!(
        result.2,
        vec![ParseError {
            expected: "<<integer>>".to_string(),
            got: Some(Word {
                value: WordValue::Word("hello".to_string()),
                line: 0,
                column_from: 0,
                column_to: 5,
            }),
            unlikely: false,
        }]
    );
    assert_eq!((result.1.start(), result.1.end()), (0, 2));

    let words = split_words("", vec![]);
    let result = bool::parse((&words).into());
    assert_eq!(
        result.2,
        vec![ParseError {
            expected: "<<boolean>>".to_string(),
            got: None,
            unlikely: false,
        }]
    );
    assert_eq!(expected(&String::parse((&words).into()).2), vec!["<<string>>"]);
    assert_eq!(expected(&TypeName::parse((&words).into()).2), vec!["<<TypeName>>"]);
    assert_eq!(expected(&ValueName::parse((&words).into()).2), vec!["<<ValueName>>"]);
}

#[test]
fn a_group_is_no_leaf() {
    let words = split_words("[1]", square());
    let result = i64::parse((&words).into());
    assert_eq!(result.0, None);
    assert_eq!(result.1.size(), 1);
    assert_eq!(got(&result.2[0]), Some("[]".to_string()));
    assert_eq!(String::parse((&words).into()).0, None);
    assert_eq!(bool::parse((&words).into()).0, None);
    assert_eq!(TypeName::parse((&words).into()).0, None);
    assert_eq!(ValueName::parse((&words).into()).0, None);
}

#[test]
fn a_lone_quote_is_no_string() {
    let words = split_words("\"", vec![]);
    assert_eq!(words.len(), 1);
    let result = String::parse((&words).into());
    assert_eq!(result.0, None);
    assert_eq!(result.1.size(), 1);
    assert_eq!(result.2.len(), 1);
    let words = split_words("\"abc", vec![]);
    assert_eq!(String::parse((&words).into()).0, None);
}

#[test]
fn the_body_of_a_string_is_taken_as_it_stands() {
    let words = split_words("\"a \\\" b\"", vec![]);
    let result = String::parse((&words).into());
    assert_eq!(result.0, Some("a \\\" b".to_string()));
}

#[test]
fn names_by_their_shape() {
    let words = split_words("Abc1 abc_1 a1B _a A_ 1a", vec![]);
    let window: VecWindow<Word> = (&words).into();
    assert!(TypeName::parse(window.clone()).0.is_some());
    assert!(ValueName::parse(window.clone()).0.is_none());
    let window = window.skip(1);
    assert!(TypeName::parse(window.clone()).0.is_none());
    assert!(ValueName::parse(window.clone()).0.is_some());
    for rest in 2..6 {
        let window: VecWindow<Word> = VecWindow::new(&words, rest, 6).unwrap();
        assert!(TypeName::parse(window.clone()).0.is_none());
        assert!(ValueName::parse(window).0.is_none());
    }
    let words = split_words("second line\n  Third", vec![]);
    let window = VecWindow::new(&words, 2, 3).unwrap();
    assert_eq!(
        TypeName::parse(window).0,
        Some(TypeName {
            text: "Third".to_string(),
            line_number: 1,
            column_from: 2,
            column_to: 7,
        })
    );
}

#[test]
fn literal_text() {
    let words = split_words("let x", vec![]);
    let result = parse_text((&words).into(), "let");
    assert_eq!(result.0, Some(()));
    assert_eq!(result.1.size(), 1);
    assert!(result.2.is_empty());

    let result = parse_text((&words).into(), "le");
    assert_eq!(result.0, None);
    assert_eq!(result.1.size(), 2);
    assert_eq!(expected(&result.2), vec!["le"]);
    assert_eq!(got(&result.2[0]), Some("let".to_string()));

    let none = split_words("", vec![]);
    let result = parse_text((&none).into(), "let");
    assert_eq!(result.0, None);
    assert_eq!(expected(&result.2), vec!["let"]);
    assert_eq!(result.2[0].got, None);

    let words = split_words("[x]", square());
    let result = parse_text((&words).into(), "[");
    assert_eq!(result.0, None);
    assert_eq!(result.1.size(), 1);
}

#[test]
fn any_word_is_a_word() {
    let words = split_words("[x] y", square());
    let result = Word::parse((&words).into());
    assert_eq!(result.0.as_ref(), Some(&words[0]));
    assert_eq!(result.1.size(), 1);
    assert!(result.2.is_empty());
    let none = split_words("", vec![]);
    let result = Word::parse((&none).into());
    assert_eq!(result.0, None);
    assert_eq!(result.1.size(), 0);
    assert!(result.2.is_empty());
}

#[test]
fn parse_to_type_is_the_parser_of_the_type() {
    let words = split_words("7 x", vec![]);
    let result = parse_to_type::<i64>((&words).into());
    assert_eq!(result.0, Some(7));
    assert_eq!(result.1.size(), 1);
}

#[test]
fn nothing_repeated_on_an_empty_window() {
    let words = split_words("", vec![]);
    let ParseResult(items, rest, errors) = Vec::<String>::parse((&words).into());
    assert_eq!(items, Some(vec![]));
    assert_eq!(rest.size(), 0);
    assert!(errors.is_empty());
    let ParseResult(items, _, errors) = Vec::<Let>::parse((&words).into());
    assert_eq!(items, Some(vec![]));
    assert!(errors.is_empty());
    let ParseResult(items, _, errors) = Vec::<Vec<i64>>::parse((&words).into());
    assert_eq!(items, Some(vec![]));
    assert!(errors.is_empty());
    let words = split_words("1 2", vec![]);
    let window = VecWindow::new(&words, 1, 1).unwrap();
    let ParseResult(items, rest, errors) = Vec::<i64>::parse(window);
    assert_eq!(items, Some(vec![]));
    assert_eq!((rest.start(), rest.end()), (1, 1));
    assert!(errors.is_empty());
}

#[test]
fn repetition_ends_when_nothing_is_read() {
    let words = split_words("a b", vec![]);
    let ParseResult(items, rest, errors) = Vec::<()>::parse((&words).into());
    assert_eq!(items, Some(vec![()]));
    assert_eq!(rest.size(), 2);
    assert!(errors.is_empty());
    let ParseResult(items, rest, _) = Vec::<Option<i64>>::parse((&words).into());
    assert_eq!(items, Some(vec![None]));
    assert_eq!(rest.size(), 2);
    let ParseResult(items, rest, _) = NonEmptyVec::<Option<i64>>::parse((&words).into());
    assert_eq!(items, Some(NonEmptyVec(vec![None])));
    assert_eq!(rest.size(), 2);
}

#[test]
fn a_list_that_must_not_be_empty() {
    let words = split_words("a 1", vec![]);
    let ParseResult(items, rest, errors) = NonEmptyVec::<i64>::parse((&words).into());
    assert_eq!(items, None);
    assert_eq!(rest.size(), 2);
    assert_eq!(expected(&errors), vec!["<<integer>>"]);
    let words = split_words("1 2 a", vec![]);
    let ParseResult(items, rest, errors) = NonEmptyVec::<i64>::parse((&words).into());
    assert_eq!(items, Some(NonEmptyVec(vec![1, 2])));
    assert_eq!(rest.size(), 1);
    assert!(errors.is_empty());
}

#[test]
fn what_is_optional_reads_nothing_when_absent() {
    let words = split_words("1 a", vec![]);
    let result = Option::<(i64, i64)>::parse((&words).into());
    assert_eq!(result.0, Some(None));
    assert_eq!(result.1.size(), 2);
    assert!(result.2.is_empty());
    let words = split_words("1 2 a", vec![]);
    let result = Option::<(i64, i64)>::parse((&words).into());
    assert_eq!(result.0, Some(Some((1, 2))));
    assert_eq!(result.1.size(), 1);
}

#[test]
fn a_pair_fails_where_its_first_part_fails() {
    let words = split_words("true 1", vec![]);
    let result = <(i64, bool)>::parse((&words).into());
    assert_eq!(result.0, None);
    assert_eq!(result.1.size(), 2);
    assert_eq!(expected(&result.2), vec!["<<integer>>"]);
}

#[test]
fn the_errors_of_both_parts_of_a_pair_are_kept() {
    let words = split_words("[1 x;2] [3 y;4]", square());
    let result = <(
        SquareBrackets<SeparatedBy<Semicolon, i64>>,
        SquareBrackets<SeparatedBy<Semicolon, i64>>,
    )>::parse((&words).into());
    let (first, second) = result.0.unwrap();
    assert_eq!(first.0 .0, vec![1, 2]);
    assert_eq!(second.0 .0, vec![3, 4]);
    assert_eq!(result.1.size(), 0);
    assert_eq!(expected(&result.2), vec![";", ";"]);
    assert_eq!(got(&result.2[0]), Some("x".to_string()));
    assert_eq!(got(&result.2[1]), Some("y".to_string()));
}

#[test]
fn brackets_of_another_kind_do_not_match() {
    let pairs = vec![
        BracketPair { open: '(', close: ')' },
        BracketPair { open: '[', close: ']' },
    ];
    let words = split_words("(1)", pairs);
    let result = SquareBrackets::<i64>::parse((&words).into());
    assert_eq!(result.0, None);
    assert_eq!(result.1.size(), 1);
    assert_eq!(expected(&result.2), vec!["["]);
    assert_eq!(got(&result.2[0]), Some("()".to_string()));
    let none = split_words("", square());
    let result = SquareBrackets::<i64>::parse((&none).into());
    assert_eq!(expected(&result.2), vec!["["]);
    assert_eq!(result.2[0].got, None);
}

#[test]
fn what_is_left_inside_brackets_is_an_error() {
    let words = split_words("[1 2] 3", square());
    let result = SquareBrackets::<i64>::parse((&words).into());
    assert_eq!(result.0, None);
    assert_eq!(result.1.size(), 2);
    assert_eq!(expected(&result.2), vec!["]"]);
    assert_eq!(got(&result.2[0]), Some("2".to_string()));
}

#[test]
fn brackets_fail_on_leftovers_also_beside_other_errors() {
    let words = split_words("[1 x;2 3]", square());
    let result = SquareBrackets::<SeparatedBy<Semicolon, i64>>::parse((&words).into());
    assert_eq!(result.0, None);
    assert_eq!(result.1.size(), 1);
    assert_eq!(expected(&result.2), vec![";", "]"]);
    assert_eq!(got(&result.2[1]), Some("3".to_string()));
}

#[test]
fn brackets_pass_on_the_errors_of_a_value() {
    let words = split_words("[1;2;] x", square());
    let result = SquareBrackets::<SeparatedBy<Semicolon, i64>>::parse((&words).into());
    assert_eq!(result.0.unwrap().0 .0, vec![1, 2]);
    assert_eq!(result.1.size(), 1);
    assert_eq!(expected(&result.2), vec!["<<integer>>"]);
    assert_eq!(result.2[0].got, None);
}

#[test]
fn an_empty_group() {
    let words = split_words("[]", square());
    let result = SquareBrackets::<Vec<i64>>::parse((&words).into());
    assert_eq!(result.0, Some(SquareBrackets(vec![])));
    assert_eq!(result.1.size(), 0);
    assert!(result.2.is_empty());
    let result = SquareBrackets::<i64>::parse((&words).into());
    assert_eq!(result.0, None);
    assert_eq!(result.1.size(), 1);
    assert_eq!(expected(&result.2), vec!["<<integer>>"]);
}

#[test]
fn a_missing_separator_is_reported_where_it_should_stand() {
    let words = split_words("1 x;2;3 4", vec![]);
    let ParseResult(items, rest, errors) =
        SeparatedBy::<Semicolon, i64>::parse((&words).into());
    assert_eq!(items.unwrap().0, vec![1, 2, 3]);
    assert_eq!((rest.start(), rest.end()), (6, 7));
    assert_eq!(expected(&errors), vec![";"]);
    assert_eq!(got(&errors[0]), Some("x".to_string()));
}

#[test]
fn separators_inside_groups_do_not_split() {
    let words = split_words("[1;2];[3]", square());
    let ParseResult(items, rest, errors) =
        SeparatedBy::<Semicolon, SquareBrackets<SeparatedBy<Semicolon, i64>>>::parse(
            (&words).into(),
        );
    let items = items.unwrap().0;
    assert_eq!(items.len(), 2);
    assert_eq!(items[0].0 .0, vec![1, 2]);
    assert_eq!(items[1].0 .0, vec![3]);
    assert_eq!(rest.size(), 0);
    assert!(errors.is_empty());
}

#[test]
fn separated_once_needs_its_separator() {
    let words = split_words("1 2", vec![]);
    let result = SeparatedOnce::<Semicolon, i64, i64>::parse((&words).into());
    assert!(result.0.is_none());
    assert_eq!(result.1.size(), 2);
    assert_eq!(expected(&result.2), vec![";"]);
    assert_eq!(result.2[0].got, None);
}

#[test]
fn separated_once_wants_the_first_half_read_whole() {
    let words = split_words("1 2;3", vec![]);
    let result = SeparatedOnce::<Semicolon, i64, i64>::parse((&words).into());
    assert!(result.0.is_none());
    assert_eq!((result.1.start(), result.1.end()), (1, 2));
    assert_eq!(expected(&result.2), vec![";"]);
    assert_eq!(got(&result.2[0]), Some("2".to_string()));

    let words = split_words("a;3", vec![]);
    let result = SeparatedOnce::<Semicolon, i64, i64>::parse((&words).into());
    assert!(result.0.is_none());
    assert_eq!(expected(&result.2), vec!["<<integer>>"]);

    let words = split_words("1;b", vec![]);
    let result = SeparatedOnce::<Semicolon, i64, i64>::parse((&words).into());
    assert!(result.0.is_none());
    assert_eq!((result.1.start(), result.1.end()), (2, 3));
    assert_eq!(expected(&result.2), vec!["<<integer>>"]);

    let words = split_words("1;2;3", vec![]);
    let result = SeparatedOnce::<Semicolon, i64, Vec<Word>>::parse((&words).into());
    let value = result.0.unwrap();
    assert_eq!(value.0, 1);
    assert_eq!(value.1.len(), 3);
    assert_eq!(result.1.size(), 0);
}

#[test]
fn statements_are_read_each_on_its_own() {
    let words = split_words("let a let B let c d let e", vec![]);
    let ParseResult(items, rest, errors) = StartTextVec::<Let>::parse((&words).into());
    let names: Vec<String> = items.unwrap().0.into_iter().map(|item| item.name).collect();
    assert_eq!(names, vec!["a", "c", "e"]);
    assert_eq!(rest.size(), 0);
    assert_eq!(expected(&errors), vec!["<<ValueName>>", "[end of statement]"]);
    assert_eq!(got(&errors[0]), Some("B".to_string()));
    assert_eq!(got(&errors[1]), Some("d".to_string()));
}

#[test]
fn what_stands_before_the_first_keyword_is_a_statement_too() {
    let words = split_words("x y let a", vec![]);
    let ParseResult(items, _, errors) = StartTextVec::<Let>::parse((&words).into());
    assert_eq!(items.unwrap().0, vec![Let { name: "a".to_string() }]);
    assert_eq!(expected(&errors), vec!["let"]);
    assert_eq!(got(&errors[0]), Some("x".to_string()));
}

#[test]
fn statements_that_must_not_be_missing() {
    let words = split_words("", vec![]);
    let result = StartTextVec::<Let>::parse((&words).into());
    assert_eq!(result.0, Some(StartTextVec(vec![])));
    assert!(result.2.is_empty());
    let result = NonEmptyStartTextVec::<Let>::parse((&words).into());
    assert_eq!(result.0, None);
    assert!(result.2.is_empty());
    let words = split_words("let", vec![]);
    let result = NonEmptyStartTextVec::<Let>::parse((&words).into());
    assert_eq!(result.0, None);
    assert_eq!(expected(&result.2), vec!["<<ValueName>>"]);
    let words = split_words("let a let b", vec![]);
    let result = NonEmptyStartTextVec::<Let>::parse((&words).into());
    assert_eq!(result.0.unwrap().0.len(), 2);
    assert_eq!(result.1.size(), 0);
}

#[test]
fn the_shape_of_a_name_is_read_from_the_marks() {
    assert!(type_name_shape(&classify_text("Abc1")));
    assert!(!type_name_shape(&classify_text("abc")));
    assert!(!type_name_shape(&classify_text("A_b")));
    assert!(!type_name_shape(&classify_text("")));
    assert!(value_name_shape(&classify_text("abc_1")));
    assert!(!value_name_shape(&classify_text("aBc")));
    assert!(!value_name_shape(&classify_text("1a")));
    assert!(!value_name_shape(&classify_text("")));
    let mut glyphs = classify_text("ab");
    glyphs[0].uppercase = true;
    assert!(type_name_shape(&glyphs));
    glyphs[1].alphanumeric = false;
    assert!(!type_name_shape(&glyphs));
    let mut glyphs = classify_text("a-");
    assert!(!value_name_shape(&glyphs));
    glyphs[1].numeric = true;
    assert!(value_name_shape(&glyphs));
}
