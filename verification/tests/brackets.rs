use parser_lib::{
    split_words, BracketPair, CurlyBrackets, Parentheses, Parser, SquareBrackets,
};

fn bracket_pairs() -> Vec<BracketPair> {
    vec![
        BracketPair {
            open: '{',
            close: '}',
        },
        BracketPair {
            open: '(',
            close: ')',
        },
        BracketPair {
            open: '[',
            close: ']',
        },
    ]
}

#[test]
fn valid_square() {
    let words = split_words("[1]", bracket_pairs());
    let result = SquareBrackets::<i64>::parse((&words).into());
    assert_eq!(result.0, Some(SquareBrackets(1)));
    assert_eq!(result.1.size(), 0);
    assert_eq!(result.2, vec![]);
}

#[test]
fn valid_curly() {
    let words = split_words("{1}", bracket_pairs());
    let result = CurlyBrackets::<i64>::parse((&words).into());
    assert_eq!(result.0, Some(CurlyBrackets(1)));
    assert_eq!(result.1.size(), 0);
    assert_eq!(result.2, vec![]);
}

#[test]
fn valid_parentheses() {
    let words = split_words("(1)", bracket_pairs());
    let result = Parentheses::<i64>::parse((&words).into());
    assert_eq!(result.0, Some(Parentheses(1)));
    assert_eq!(result.1.size(), 0);
    assert_eq!(result.2, vec![]);
}

#[test]
fn invalid_inside() {
    let words = split_words("[a]", bracket_pairs());
    let result = SquareBrackets::<i64>::parse((&words).into());
    assert_eq!(result.0, None);
    assert_eq!(result.1.size(), 1);
    assert_eq!(result.2.len(), 1);
}

#[test]
fn invalid_no_brackets() {
    let words = split_words("1 2", bracket_pairs());
    let result = SquareBrackets::<i64>::parse((&words).into());
    assert_eq!(result.0, None);
    assert_eq!(result.1.size(), 2);
    assert_eq!(result.2.len(), 1);
}

#[test]
fn invalid_did_not_expect_more() {
    let words = split_words("[1 2]", bracket_pairs());
    let result = SquareBrackets::<i64>::parse((&words).into());
    assert_eq!(result.0, None);
    assert_eq!(result.1.size(), 1);
    assert_eq!(result.2.len(), 1);
}
