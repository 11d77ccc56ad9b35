use parser_lib::{
    parse_helper, split_words, ParseResult, Parser, TypeName, ValueName, VecWindow, Word,
};

#[derive(Debug, PartialEq)]
struct Float(f64);

impl Parser<Float> for Float {
    type Value = ();

    fn parse<'l>(words: VecWindow<'l, Word>) -> ParseResult<'l, Float> {
        parse_helper(words, "<<float>>", |word: &Word| {
            word.get_word()?.parse::<f64>().ok().map(Float)
        })
    }

    fn starting_keywords() -> Vec<&'static str> {
        Vec::new()
    }
}

#[test]
fn basics_valid() {
    let words = split_words("\"hello\"", vec![]);
    let result = String::parse((&words).into());
    assert_eq!(result.0, Some("hello".to_string()));
    assert_eq!(result.1.size(), 0);
    assert_eq!(result.2.len(), 0);

    let words = split_words("123", vec![]);
    let result = i64::parse((&words).into());
    assert_eq!(result.0, Some(123));
    assert_eq!(result.1.size(), 0);
    assert_eq!(result.2.len(), 0);

    let words = split_words("123.456", vec![]);
    let result = Float::parse((&words).into());
    assert_eq!(result.0, Some(Float(123.456)));
    assert_eq!(result.1.size(), 0);
    assert_eq!(result.2.len(), 0);

    let words = split_words("hello", vec![]);
    let result = <()>::parse((&words).into());
    assert_eq!(result.0, Some(()));
    assert_eq!(result.1.size(), 1);
    assert_eq!(result.2.len(), 0);

    let words = split_words("Hello", vec![]);
    let result = TypeName::parse((&words).into());
    assert_eq!(
        result.0,
        Some(TypeName {
            text: "Hello".to_string(),
            line_number: 0,
            column_from: 0,
            column_to: 5,
        })
    );
    assert_eq!(result.1.size(), 0);
    assert_eq!(result.2.len(), 0);

    let words = split_words("hello", vec![]);
    let result = ValueName::parse((&words).into());
    assert_eq!(
        result.0,
        Some(ValueName {
            text: "hello".to_string(),
            line_number: 0,
            column_from: 0,
            column_to: 5,
        })
    );
    assert_eq!(result.1.size(), 0);
    assert_eq!(result.2.len(), 0);
}

#[test]
fn empty() {
    let words = split_words("\"\"", vec![]);
    let result = String::parse((&words).into());
    assert_eq!(result.0, Some("".to_string()));
    assert_eq!(result.1.size(), 0);
    assert_eq!(result.2.len(), 0);
}

#[test]
fn no_quotes() {
    let words = split_words("hello", vec![]);
    let result = String::parse((&words).into());
    assert_eq!(result.0, None);
    assert_eq!(result.1.size(), 1);
    assert_eq!(result.2.len(), 1);
}

#[test]
fn words_left() {
    let words = split_words("\"hello\" world", vec![]);
    let result = String::parse((&words).into());
    assert_eq!(result.0, Some("hello".to_string()));
    assert_eq!(result.1.size(), 1);
    assert_eq!(result.2.len(), 0);
}

#[test]
fn basics_invalid() {
    let words = split_words("hello", vec![]);
    let result = i64::parse((&words).into());
    assert_eq!(result.0, None);
    assert_eq!(result.1.size(), 1);
    assert_eq!(result.2.len(), 1);

    let words = split_words("hello", vec![]);
    let result = Float::parse((&words).into());
    assert_eq!(result.0, None);
    assert_eq!(result.1.size(), 1);
    assert_eq!(result.2.len(), 1);

    let words = split_words("hello", vec![]);
    let result = bool::parse((&words).into());
    assert_eq!(result.0, None);
    assert_eq!(result.1.size(), 1);
    assert_eq!(result.2.len(), 1);

    let words = split_words("hello", vec![]);
    let result = TypeName::parse((&words).into());
    assert_eq!(result.0, None);
    assert_eq!(result.1.size(), 1);
    assert_eq!(result.2.len(), 1);

    let words = split_words("Hello", vec![]);
    let result = ValueName::parse((&words).into());
    assert_eq!(result.0, None);
    assert_eq!(result.1.size(), 1);
    assert_eq!(result.2.len(), 1);
}

#[test]
fn valid_true() {
    let words = split_words("true", vec![]);
    let result = bool::parse((&words).into());
    assert_eq!(result.0, Some(true));
    assert_eq!(result.1.size(), 0);
    assert_eq!(result.2.len(), 0);
}

#[test]
fn valid_false() {
    let words = split_words("false", vec![]);
    let result = bool::parse((&words).into());
    assert_eq!(result.0, Some(false));
    assert_eq!(result.1.size(), 0);
    assert_eq!(result.2.len(), 0);
}

#[test]
fn basics_valid_multiple() {
    let words = split_words("HelloWorld", vec![]);
    let result = TypeName::parse((&words).into());
    assert_eq!(
        result.0,
        Some(TypeName {
            text: "HelloWorld".to_string(),
            line_number: 0,
            column_from: 0,
            column_to: 10,
        })
    );
    assert_eq!(result.1.size(), 0);
    assert_eq!(result.2.len(), 0);

    let words = split_words("hello_world", vec![]);
    let result = ValueName::parse((&words).into());
    assert_eq!(
        result.0,
        Some(ValueName {
            text: "hello_world".to_string(),
            line_number: 0,
            column_from: 0,
            column_to: 11,
        })
    );
    assert_eq!(result.1.size(), 0);
    assert_eq!(result.2.len(), 0);
}

#[test]
fn basics_invalid_multiple() {
    let words = split_words("helloWorld", vec![]);
    let result = TypeName::parse((&words).into());
    assert_eq!(result.0, None);
    assert_eq!(result.1.size(), 1);
    assert_eq!(result.2.len(), 1);

    let words = split_words("helloWorld", vec![]);
    let result = ValueName::parse((&words).into());
    assert_eq!(result.0, None);
    assert_eq!(result.1.size(), 1);
    assert_eq!(result.2.len(), 1);
}

#[test]
fn invalid_underscore() {
    let words = split_words("Hello_World", vec![]);
    let result = TypeName::parse((&words).into());
    assert_eq!(result.0, None);
    assert_eq!(result.1.size(), 1);
    assert_eq!(result.2.len(), 1);
}
