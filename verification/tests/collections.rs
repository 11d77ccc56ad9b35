use parser_lib::{split_words, NonEmptyVec, ParseResult, Parser};

#[test]
fn collections_valid() {
    let input = "1 2 3";
    let words = split_words(input, vec![]);
    let ParseResult(res, _, errors) = Vec::<i64>::parse((&words).into());
    assert_eq!(res, Some(vec![1, 2, 3]));
    assert!(errors.is_empty());

    let input = "1 2 3";
    let words = split_words(input, vec![]);
    let ParseResult(res, _, errors) = NonEmptyVec::<i64>::parse((&words).into());
    assert_eq!(res, Some(NonEmptyVec(vec![1, 2, 3])));
    assert!(errors.is_empty());

    let input = "1 2";
    let words = split_words(input, vec![]);
    let ParseResult(res, _, errors) = <(i64, i64)>::parse((&words).into());
    assert_eq!(res, Some((1, 2)));
    assert!(errors.is_empty());
}

#[test]
fn collections_valid_empty() {
    let input = "";
    let words = split_words(input, vec![]);
    let ParseResult(res, _, errors) = Vec::<i64>::parse((&words).into());
    assert_eq!(res, Some(vec![]));
    assert!(errors.is_empty());
}

#[test]
fn collections_invalid() {
    let input = "1 2 a";
    let words = split_words(input, vec![]);
    let ParseResult(res, words, errors) = Vec::<i64>::parse((&words).into());
    assert_eq!(res, Some(vec![1, 2]));
    assert_eq!(errors.len(), 0);
    assert_eq!(words.size(), 1);

    let input = "";
    let words = split_words(input, vec![]);
    let ParseResult(res, words, errors) = NonEmptyVec::<i64>::parse((&words).into());
    assert_eq!(res, None);
    assert_eq!(errors.len(), 1);
    assert_eq!(words.size(), 0);

    let input = "1 a";
    let words = split_words(input, vec![]);
    let ParseResult(res, words, errors) = <(i64, i64)>::parse((&words).into());
    assert_eq!(res, None);
    assert_eq!(errors.len(), 1);
    assert_eq!(words.size(), 1);
}

#[test]
fn invalid_both() {
    let input = "a b";
    let words = split_words(input, vec![]);
    let ParseResult(res, words, errors) = <(i64, i64)>::parse((&words).into());
    assert_eq!(res, None);
    assert_eq!(errors.len(), 1);
    assert_eq!(words.size(), 2);
}

#[test]
fn invalid_empty() {
    let input = "";
    let words = split_words(input, vec![]);
    let ParseResult(res, words, errors) = <(i64, i64)>::parse((&words).into());
    assert_eq!(res, None);
    assert_eq!(errors.len(), 1);
    assert_eq!(words.size(), 0);
}
