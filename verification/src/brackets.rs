//! Parsers for what stands inside a bracket group.
use vstd::prelude::*;
use crate::basics::{leaf_error, leaf_failure, lemma_first_token, single_error};
use crate::result::{error_views, tokens, ParseResult, Parsed, Parser};
use crate::window::{VecWindow, WindowView};
use crate::words::{lemma_word_views, Word, WordView};

verus! {

/// The window over all the words inside a group.
pub open spec fn inner_window(inner: Seq<WordView>) -> WindowView<WordView> {
    WindowView { items: inner, start: 0, end: inner.len() as int }
}

/// What parsing a `T` inside a bracket group yields.
///
/// The first word must be a group with the two bracket characters; if the
/// window is empty or the word is something else, that is the one error, and
/// it names the opening character. `T` is then read from the words inside the
/// group, and must read them all. Where `T` fails and says why, the whole
/// fails with the errors of `T`. Else, where `T` leaves a word, the whole
/// fails too, and the error that the closing character was expected in place
/// of that word is added to the errors of `T`. Else the whole gives what `T`
/// gave, with its errors. The window moves behind the group if there is a
/// value, and stays untouched if there is none.
pub open spec fn spec_brackets<T: Parser<T>>(
    words: WindowView<WordView>,
    open: char,
    close: char,
) -> Parsed<T::Value> {
    match words.first() {
        None => leaf_failure(words, seq![open], None),
        Some(first) => match first.brackets(open, close) {
            None => leaf_failure(words, seq![open], Some(first)),
            Some(inner) => {
                let inside = T::spec_parse(inner_window(inner));
                if inside.value is None && inside.errors.len() > 0 {
                    Parsed { value: None, rest: words, errors: inside.errors }
                } else if inside.rest.size() > 0 {
                    Parsed {
                        value: None,
                        rest: words,
                        errors: inside.errors.push(leaf_error(seq![close], inside.rest.first())),
                    }
                } else if inside.value is Some {
                    Parsed { value: inside.value, rest: words.skip(1), errors: inside.errors }
                } else {
                    Parsed { value: None, rest: words, errors: inside.errors }
                }
            },
        },
    }
}

fn char_text(ch: char) -> (res: String)
    ensures
        res@ == seq![ch],
{
    let mut res = String::new();
    res.push(ch);
    assert(res@ =~= seq![ch]);
    res
}

fn brackets_helper<'l, T: Parser<T>>(words: VecWindow<'l, Word>, start: char, end: char) -> (res:
    ParseResult<'l, T>)
    ensures
        crate::result::parsed::<T, T>(res) == spec_brackets::<T>(tokens(words@), start, end),
{
    words.well_formed();
    proof {
        lemma_first_token(words@);
    }
    let Some(first) = words.first() else {
        let expected = char_text(start);
        return ParseResult(None, words, single_error(expected.as_str(), None));
    };
    let Some(inner) = first.get_brackets(start, end) else {
        let expected = char_text(start);
        let errors = single_error(expected.as_str(), Some(first.clone()));
        return ParseResult(None, words, errors);
    };
    proof {
        lemma_word_views(inner@);
    }
    let inner_words = VecWindow::from(inner);
    assert(tokens(inner_words@) == inner_window(first@.brackets(start, end)->0));
    let ParseResult(inner_res, inner_rest, errors) = T::parse(inner_words);
    inner_rest.well_formed();
    proof {
        lemma_first_token(inner_rest@);
    }
    let mut errors = errors;
    let failed = inner_res.is_none() && !errors.is_empty();
    if !failed {
        if let Some(word) = inner_rest.first() {
            let expected = char_text(end);
            let ghost so_far = errors@;
            let mut extra = single_error(expected.as_str(), Some(word.clone()));
            let ghost added = extra@;
            errors.append(&mut extra);
            assert(error_views(errors@) =~= error_views(so_far) + error_views(added));
            assert(error_views(errors@) =~= error_views(so_far).push(
                leaf_error(seq![end], tokens(inner_rest@).first()),
            ));
            return ParseResult(None, words, errors);
        }
    }
    if inner_rest.is_empty() {
        if let Some(value) = inner_res {
            return ParseResult(Some(value), words.skip(1), errors);
        }
    }
    ParseResult(None, words, errors)
}

/// A `T` inside `[` and `]`.
#[derive(Clone, Debug, PartialEq, Eq)]
pub struct SquareBrackets<T>(pub T);

impl<T: Parser<T>> Parser<SquareBrackets<T>> for SquareBrackets<T> {
    type Value = T::Value;

    open spec fn value_of(out: SquareBrackets<T>) -> T::Value {
        T::value_of(out.0)
    }

    open spec fn spec_parse(words: WindowView<WordView>) -> Parsed<T::Value> {
        spec_brackets::<T>(words, '[', ']')
    }

    open spec fn spec_starting_keywords() -> Seq<Seq<char>> {
        Seq::empty()
    }

    fn parse<'l>(words: VecWindow<'l, Word>) -> (res: ParseResult<'l, SquareBrackets<T>>) {
        let ParseResult(value, rest, errors) = brackets_helper::<T>(words, '[', ']');
        match value {
            Some(value) => ParseResult(Some(SquareBrackets(value)), rest, errors),
            None => ParseResult(None, rest, errors),
        }
    }

    fn starting_keywords() -> (res: Vec<&'static str>) {
        Vec::new()
    }
}

/// A `T` inside `{` and `}`.
#[derive(Clone, Debug, PartialEq, Eq)]
pub struct CurlyBrackets<T>(pub T);

impl<T: Parser<T>> Parser<CurlyBrackets<T>> for CurlyBrackets<T> {
    type Value = T::Value;

    open spec fn value_of(out: CurlyBrackets<T>) -> T::Value {
        T::value_of(out.0)
    }

    open spec fn spec_parse(words: WindowView<WordView>) -> Parsed<T::Value> {
        spec_brackets::<T>(words, '{', '}')
    }

    open spec fn spec_starting_keywords() -> Seq<Seq<char>> {
        Seq::empty()
    }

    fn parse<'l>(words: VecWindow<'l, Word>) -> (res: ParseResult<'l, CurlyBrackets<T>>) {
        let ParseResult(value, rest, errors) = brackets_helper::<T>(words, '{', '}');
        match value {
            Some(value) => ParseResult(Some(CurlyBrackets(value)), rest, errors),
            None => ParseResult(None, rest, errors),
        }
    }

    fn starting_keywords() -> (res: Vec<&'static str>) {
        Vec::new()
    }
}

/// A `T` inside `(` and `)`.
#[derive(Clone, Debug, PartialEq, Eq)]
pub struct Parentheses<T>(pub T);

impl<T: Parser<T>> Parser<Parentheses<T>> for Parentheses<T> {
    type Value = T::Value;

    open spec fn value_of(out: Parentheses<T>) -> T::Value {
        T::value_of(out.0)
    }

    open spec fn spec_parse(words: WindowView<WordView>) -> Parsed<T::Value> {
        spec_brackets::<T>(words, '(', ')')
    }

    open spec fn spec_starting_keywords() -> Seq<Seq<char>> {
        Seq::empty()
    }

    fn parse<'l>(words: VecWindow<'l, Word>) -> (res: ParseResult<'l, Parentheses<T>>) {
        let ParseResult(value, rest, errors) = brackets_helper::<T>(words, '(', ')');
        match value {
            Some(value) => ParseResult(Some(Parentheses(value)), rest, errors),
            None => ParseResult(None, rest, errors),
        }
    }

    fn starting_keywords() -> (res: Vec<&'static str>) {
        Vec::new()
    }
}

} // verus!
