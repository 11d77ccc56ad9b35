//! Parsers that wrap another parser without reading anything themselves.
use vstd::prelude::*;
use crate::basics::no_errors;
use crate::result::{ParseResult, Parsed, Parser};
use crate::window::{VecWindow, WindowView};
use crate::words::{Word, WordView};

verus! {

impl<T: Parser<Out>, Out> Parser<Option<Out>> for Option<T> {
    type Value = Option<T::Value>;

    open spec fn value_of(out: Option<Out>) -> Option<T::Value> {
        match out {
            Some(inner) => Some(T::value_of(inner)),
            None => None,
        }
    }

    /// Always a value: what `T` gives, with its window and errors, or, where
    /// `T` fails, nothing, with the window untouched and no errors.
    open spec fn spec_parse(words: WindowView<WordView>) -> Parsed<Option<T::Value>> {
        let inner = T::spec_parse(words);
        match inner.value {
            Some(value) => Parsed {
                value: Some(Some(value)),
                rest: inner.rest,
                errors: inner.errors,
            },
            None => Parsed { value: Some(None), rest: words, errors: Seq::empty() },
        }
    }

    open spec fn spec_starting_keywords() -> Seq<Seq<char>> {
        Seq::empty()
    }

    fn parse<'l>(words: VecWindow<'l, Word>) -> (res: ParseResult<'l, Option<Out>>) {
        let before = words.clone();
        let ParseResult(res, rest, errors) = T::parse(words);
        if let Some(res) = res {
            ParseResult(Some(Some(res)), rest, errors)
        } else {
            ParseResult(Some(None), before, no_errors())
        }
    }

    fn starting_keywords() -> (res: Vec<&'static str>) {
        Vec::new()
    }
}

impl<T: Parser<Out>, Out> Parser<Box<Out>> for Box<T> {
    type Value = T::Value;

    open spec fn value_of(out: Box<Out>) -> T::Value {
        T::value_of(*out)
    }

    /// What `T` gives.
    open spec fn spec_parse(words: WindowView<WordView>) -> Parsed<T::Value> {
        T::spec_parse(words)
    }

    open spec fn spec_starting_keywords() -> Seq<Seq<char>> {
        Seq::empty()
    }

    fn parse<'l>(words: VecWindow<'l, Word>) -> (res: ParseResult<'l, Box<Out>>) {
        let ParseResult(res, rest, errors) = T::parse(words);
        match res {
            Some(value) => ParseResult(Some(Box::new(value)), rest, errors),
            None => ParseResult(None, rest, errors),
        }
    }

    fn starting_keywords() -> (res: Vec<&'static str>) {
        Vec::new()
    }
}

} // verus!
