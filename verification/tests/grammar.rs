use parser_lib::{
    split_words, Fields, ParseError, ParseResult, Parser, SeparatedBy, SeparatedBySeparator,
    SquareBrackets, BracketPair, ValueName, Variants, VecWindow, Word,
};

struct Comma;

impl SeparatedBySeparator for Comma {
    const SEPARATOR: &'static str = ",";
}

#[derive(Debug, PartialEq)]
enum Statement {
    Assign { name: String, value: i64 },
    Number(i64),
}

impl Statement {
    fn parse_assign(words: VecWindow<Word>) -> ParseResult<Statement> {
        let mut fields = Fields::new(words);
        let value = Self::read_assign(&mut fields);
        fields.finish(value)
    }

    fn read_assign(fields: &mut Fields) -> Option<Statement> {
        if !fields.text("let") {
            return None;
        }
        let name = fields.field::<ValueName>()?;
        if !fields.text("=") {
            return None;
        }
        let value = fields.field::<i64>()?;
        Some(Statement::Assign {
            name: name.text,
            value,
        })
    }

    fn parse_number(words: VecWindow<Word>) -> ParseResult<Statement> {
        let mut fields = Fields::new(words);
        let value = Self::read_number(&mut fields);
        fields.finish(value)
    }

    fn read_number(fields: &mut Fields) -> Option<Statement> {
        if !fields.text("let") {
            return None;
        }
        Some(Statement::Number(fields.field::<i64>()?))
    }
}

impl Parser<Statement> for Statement {
    type Value = ();

    fn parse<'l>(words: VecWindow<'l, Word>) -> ParseResult<'l, Statement> {
        let mut variants = Variants::new(words);
        if variants.starts_with("let") {
            if let Some(done) = variants.attempt(Self::parse_assign(variants.window())) {
                return done;
            }
        }
        if variants.starts_with("let") {
            if let Some(done) = variants.attempt(Self::parse_number(variants.window())) {
                return done;
            }
        }
        variants.finish()
    }

    fn starting_keywords() -> Vec<&'static str> {
        vec!["let", "let"]
    }
}

fn marks(errors: &[ParseError]) -> Vec<(&str, Option<String>, bool)> {
    errors
        .iter()
        .map(|error| {
            (
                error.expected.as_str(),
                error.got.as_ref().map(|word| word.display_text()),
                error.unlikely,
            )
        })
        .collect()
}

#[test]
fn the_first_variant_that_reads_wins() {
    let words = split_words("let x = 5 rest", vec![]);
    let result = Statement::parse((&words).into());
    assert_eq!(
        result.0,
        Some(Statement::Assign {
            name: "x".to_string(),
            value: 5
        })
    );
    assert_eq!(result.1.size(), 1);
    assert!(result.2.is_empty());

    let words = split_words("let 7", vec![]);
    let result = Statement::parse((&words).into());
    assert_eq!(result.0, Some(Statement::Number(7)));
    assert_eq!(result.1.size(), 0);
    assert!(result.2.is_empty());
}

#[test]
fn the_variant_that_got_further_is_the_likely_one() {
    let words = split_words("let x = y", vec![]);
    let result = Statement::parse((&words).into());
    assert_eq!(result.0, None);
    assert_eq!(result.1.size(), 4);
    assert_eq!(
        marks(&result.2),
        vec![
            ("<<integer>>", Some("y".to_string()), false),
            ("<<integer>>", Some("x".to_string()), true),
        ]
    );
}

#[test]
fn variants_that_fail_at_one_place_are_all_likely() {
    let words = split_words("let", vec![]);
    let result = Statement::parse((&words).into());
    assert_eq!(result.0, None);
    assert_eq!(
        marks(&result.2),
        vec![("<<ValueName>>", None, false), ("<<integer>>", None, false)]
    );
}

#[test]
fn no_variant_tried_no_error() {
    let words = split_words("x = 1", vec![]);
    let result = Statement::parse((&words).into());
    assert_eq!(result.0, None);
    assert_eq!(result.1.size(), 3);
    assert!(result.2.is_empty());
    let none = split_words("", vec![]);
    let variants = Variants::new((&none).into());
    assert!(!variants.starts_with("let"));
    let words = split_words("[let]", vec![BracketPair { open: '[', close: ']' }]);
    let variants = Variants::new((&words).into());
    assert!(!variants.starts_with("let"));
    assert!(!variants.starts_with("["));
}

#[test]
fn a_missing_literal_is_the_only_error() {
    let words = split_words("[1 x,2] let", vec![BracketPair { open: '[', close: ']' }]);
    let mut fields = Fields::new((&words).into());
    let list = fields.field::<SquareBrackets<SeparatedBy<Comma, i64>>>();
    assert_eq!(list.unwrap().0 .0, vec![1, 2]);
    assert!(!fields.text("="));
    let result = fields.finish::<()>(None);
    assert_eq!(result.1.size(), 1);
    assert_eq!(marks(&result.2), vec![("=", Some("let".to_string()), false)]);
}

#[test]
fn the_errors_of_the_fields_are_gathered() {
    let pairs = vec![BracketPair { open: '[', close: ']' }];
    let words = split_words("[1 x,2] [3 y,4] z", pairs);
    let mut fields = Fields::new((&words).into());
    assert!(fields.field::<SquareBrackets<SeparatedBy<Comma, i64>>>().is_some());
    assert!(fields.field::<SquareBrackets<SeparatedBy<Comma, i64>>>().is_some());
    assert_eq!(fields.field::<i64>(), None);
    let result = fields.finish::<()>(None);
    assert_eq!(result.1.size(), 1);
    assert_eq!(
        marks(&result.2),
        vec![
            (",", Some("x".to_string()), false),
            (",", Some("y".to_string()), false),
            ("<<integer>>", Some("z".to_string()), false),
        ]
    );
}
