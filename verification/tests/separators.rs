use parser_lib::{
    parse_text, split_words, ParseResult, Parser, SeparatedBy, SeparatedBySeparator,
    SeparatedOnce, StartTextVec, VecWindow, Word,
};

#[derive(Clone, Debug, PartialEq)]
struct Comma {}

impl SeparatedBySeparator for Comma {
    const SEPARATOR: &'static str = ",";
}

struct FancyInt {
    value: i64,
}

impl Parser<FancyInt> for FancyInt {
    type Value = i64;

    fn parse<'l>(words: VecWindow<'l, Word>) -> ParseResult<'l, FancyInt> {
        let ParseResult(keyword, words, errors) = parse_text(words, "int");
        if keyword.is_none() {
            return ParseResult(None, words, errors);
        }
        let ParseResult(value, words, errors) = i64::parse(words);
        ParseResult(value.map(|value| FancyInt { value }), words, errors)
    }

    fn starting_keywords() -> Vec<&'static str> {
        vec!["int"]
    }
}

#[test]
fn separators_valid() {
    let input = "1,2,3";
    let words = split_words(input, vec![]);
    let ParseResult(res, _, errors) = SeparatedBy::<Comma, i64>::parse((&words).into());
    assert_eq!(res.unwrap().0, vec![1, 2, 3]);
    assert!(errors.is_empty());

    let input = "1,2,3";
    let words = split_words(input, vec![]);
    let ParseResult(res, words, errors) =
        SeparatedOnce::<Comma, i64, i64>::parse((&words).into());
    assert!(res.is_none());
    assert_eq!(words.size(), 2);
    assert_eq!(errors.len(), 1);
    assert_eq!(errors[0].expected, "[end of input]");
    assert_eq!(
        errors[0].got.as_ref().map(|word| word.display_text()),
        Some(",".to_string())
    );

    let input = "int 1 int 2 int 3";
    let words = split_words(input, vec![]);
    let ParseResult(res, words, errors) = StartTextVec::<FancyInt>::parse((&words).into());
    let value = res.unwrap();
    assert_eq!(value.0.len(), 3);
    assert_eq!(value.0[0].value, 1);
    assert_eq!(value.0[1].value, 2);
    assert_eq!(value.0[2].value, 3);
    assert_eq!(words.size(), 0);
    assert!(errors.is_empty());
}

#[test]
fn separators_valid_empty() {
    let input = "";
    let words = split_words(input, vec![]);
    let ParseResult(res, words, errors) = SeparatedBy::<Comma, i64>::parse((&words).into());
    assert!(res.unwrap().0.is_empty());
    assert_eq!(words.size(), 0);
    assert!(errors.is_empty());
}

#[test]
fn invalid_trailing() {
    let input = "1,2,3,";
    let words = split_words(input, vec![]);
    let ParseResult(res, words, errors) = SeparatedBy::<Comma, i64>::parse((&words).into());
    assert_eq!(res.unwrap().0, vec![1, 2, 3]);
    assert_eq!(words.size(), 0);
    assert_eq!(errors.len(), 1);
}

#[test]
fn invalid_leading() {
    let input = ",1,2,3";
    let words = split_words(input, vec![]);

    let ParseResult(res, words, errors) = SeparatedBy::<Comma, i64>::parse((&words).into());
    assert_eq!(res.unwrap().0, vec![2, 3]);
    assert_eq!(words.size(), 0);
    assert_eq!(errors.len(), 1);
}

#[test]
fn invalid_value() {
    let input = "1,b,3";
    let words = split_words(input, vec![]);
    let ParseResult(res, words, errors) = SeparatedBy::<Comma, i64>::parse((&words).into());
    assert_eq!(res.unwrap().0, vec![1, 3]);
    assert_eq!(words.size(), 0);
    assert_eq!(errors.len(), 1);
}

#[test]
fn separators_invalid() {
    let input = "1,";
    let words = split_words(input, vec![]);
    let ParseResult(res, words, errors) =
        SeparatedOnce::<Comma, i64, i64>::parse((&words).into());
    assert!(res.is_none());
    assert_eq!(words.size(), 0);
    assert_eq!(errors.len(), 1);

    let input = "int 1 int 2 int";
    let words = split_words(input, vec![]);
    let ParseResult(res, words, errors) = StartTextVec::<FancyInt>::parse((&words).into());
    let value = res.unwrap();
    assert_eq!(value.0.len(), 2);
    assert_eq!(value.0[0].value, 1);
    assert_eq!(value.0[1].value, 2);
    assert_eq!(words.size(), 0);
    println!("errors: {:?}", errors);
    assert_eq!(errors.len(), 1);
}

#[test]
fn separated_once_reads_both_halves_whole() {
    let input = "1,2";
    let words = split_words(input, vec![]);
    let ParseResult(res, words, errors) =
        SeparatedOnce::<Comma, i64, i64>::parse((&words).into());
    let value = res.unwrap();
    assert_eq!(value.0, 1);
    assert_eq!(value.1, 2);
    assert_eq!(words.size(), 0);
    assert_eq!(errors.len(), 0);
}

#[test]
fn the_separators_of_the_library() {
    assert_eq!(parser_lib::Comma::SEPARATOR, ",");
    assert_eq!(parser_lib::Colon::SEPARATOR, ":");
    assert_eq!(parser_lib::Semicolon::SEPARATOR, ";");
    assert_eq!(parser_lib::ArrowRight::SEPARATOR, "->");
    let words = split_words("1->2", vec![]);
    let ParseResult(res, rest, errors) =
        SeparatedOnce::<parser_lib::ArrowRight, i64, i64>::parse((&words).into());
    let value = res.unwrap();
    assert_eq!((value.0, value.1), (1, 2));
    assert_eq!(rest.size(), 0);
    assert!(errors.is_empty());
    let words = split_words("1;2", vec![]);
    let ParseResult(res, _, errors) =
        SeparatedBy::<parser_lib::Semicolon, i64>::parse((&words).into());
    assert_eq!(res.unwrap().0, vec![1, 2]);
    assert!(errors.is_empty());
}
