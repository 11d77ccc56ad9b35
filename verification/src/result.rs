//! What every parser takes and gives: the error record, the three-part
//! result, and the capability that a grammar type implements.
use vstd::prelude::*;
use crate::window::{VecWindow, WindowView};
use crate::words::{word_views, Word, WordView};

verus! {

/// One thing that a parser looked for and did not find.
#[derive(Debug, PartialEq, Eq)]
pub struct ParseError {
    /// What was looked for.
    pub expected: String,
    /// The token found in its place; `None` at the end of the input.
    pub got: Option<Word>,
    /// Set only when sibling alternatives are compared: the error comes
    /// from an alternative that gave up earlier than another.
    pub unlikely: bool,
}

/// The mathematical value of a `ParseError`.
pub ghost struct ParseErrorView {
    pub expected: Seq<char>,
    pub got: Option<WordView>,
    pub unlikely: bool,
}

impl ParseErrorView {
    /// Where the error sits: the place of the offending token, or `(0, 0)`
    /// at the end of the input.
    pub open spec fn pos(self) -> (nat, nat) {
        match self.got {
            Some(word) => word.pos(),
            None => (0, 0),
        }
    }
}

impl View for ParseError {
    type V = ParseErrorView;

    open spec fn view(&self) -> ParseErrorView {
        ParseErrorView {
            expected: self.expected@,
            got: match self.got {
                Some(word) => Some(word@),
                None => None,
            },
            unlikely: self.unlikely,
        }
    }
}

impl Clone for ParseError {
    fn clone(&self) -> (res: Self)
        ensures
            res@ == self@,
    {
        ParseError {
            expected: self.expected.clone(),
            got: match &self.got {
                Some(word) => Some(word.clone()),
                None => None,
            },
            unlikely: self.unlikely,
        }
    }
}

impl ParseError {
    /// Line and first column of the offending token, `(0, 0)` at the end of
    /// the input.
    pub fn pos(&self) -> (res: (usize, usize))
        ensures
            res.0 == self@.pos().0,
            res.1 == self@.pos().1,
    {
        match &self.got {
            Some(word) => word.pos(),
            None => (0, 0),
        }
    }
}

/// The values of a list of errors.
pub open spec fn error_views(errors: Seq<ParseError>) -> Seq<ParseErrorView> {
    errors.map_values(|e: ParseError| e@)
}

/// The tokens that a window of words shows.
pub open spec fn tokens(words: WindowView<Word>) -> WindowView<WordView> {
    WindowView { items: word_views(words.items), start: words.start, end: words.end }
}

/// The value that a parse attempt yields, the window to go on from, and the
/// errors met on the way. Errors may be present beside a value.
#[derive(Debug)]
pub struct ParseResult<'l, Out>(pub Option<Out>, pub VecWindow<'l, Word>, pub Vec<ParseError>);

/// The mathematical value of a `ParseResult`.
pub ghost struct Parsed<V> {
    pub value: Option<V>,
    pub rest: WindowView<WordView>,
    pub errors: Seq<ParseErrorView>,
}

/// The value of a result whose parsed value is read by `value_of`.
pub open spec fn parsed_with<Out, V>(res: ParseResult<Out>, value_of: spec_fn(Out) -> V) -> Parsed<
    V,
> {
    Parsed {
        value: match res.0 {
            Some(out) => Some(value_of(out)),
            None => None,
        },
        rest: tokens(res.1@),
        errors: error_views(res.2@),
    }
}

/// A type that can be read from a window of words.
///
/// This is the one extension point of the engine: a grammar type is added by
/// implementing it. What parsing yields is a function of the tokens that the
/// window shows, `spec_parse`, and `parse` returns just that. The parsers
/// that are built from other parsers state what they yield over the
/// `spec_parse` of their parts.
///
/// A verified implementation gives `value_of`, `spec_parse` and
/// `spec_starting_keywords` bodies of its own. The bodies here leave the
/// value open, so that code outside the verifier can implement the trait by
/// `Value`, `parse` and `starting_keywords` alone; that `parse` is a function
/// of the tokens is then for its author to see to.
pub trait Parser<Out>: Sized {
    /// The mathematical value that stands for a parsed `Out`.
    type Value;

    /// The value of a parsed `Out`.
    open spec fn value_of(out: Out) -> Self::Value {
        arbitrary()
    }

    /// What parsing yields on the given tokens.
    open spec fn spec_parse(words: WindowView<WordView>) -> Parsed<Self::Value> {
        arbitrary()
    }

    /// The literal words that can begin a value of this type.
    open spec fn spec_starting_keywords() -> Seq<Seq<char>> {
        Seq::empty()
    }

    /// Reads a value from the front of the window. With a value comes the
    /// window behind what was read; without one, the window to go on from,
    /// as a rule the one that was given. Errors may come with either.
    fn parse<'l>(words: VecWindow<'l, Word>) -> (res: ParseResult<'l, Out>)
        ensures
            parsed_with(res, |out: Out| Self::value_of(out)) == Self::spec_parse(tokens(words@)),
    ;

    /// The literal words that can begin a value of this type; none if any
    /// word can. Every implementation writes it out: a body given here could
    /// not be held to `spec_starting_keywords`, which an implementation is
    /// free to define.
    fn starting_keywords() -> (res: Vec<&'static str>)
        ensures
            res@.len() == Self::spec_starting_keywords().len(),
            forall|i: int|
                0 <= i < res@.len() ==> (#[trigger] res@[i])@ == Self::spec_starting_keywords()[i],
    ;
}

/// The value of what a parser of type `P` returned.
pub open spec fn parsed<P: Parser<Out>, Out>(res: ParseResult<Out>) -> Parsed<P::Value> {
    parsed_with(res, |out: Out| P::value_of(out))
}

/// Parses a `T`.
pub fn parse_to_type<'l, T: Parser<T>>(words: VecWindow<'l, Word>) -> (res: ParseResult<'l, T>)
    ensures
        parsed::<T, T>(res) == T::spec_parse(tokens(words@)),
{
    T::parse(words)
}

impl Parser<()> for () {
    type Value = ();

    open spec fn value_of(out: ()) -> () {
        ()
    }

    open spec fn spec_parse(words: WindowView<WordView>) -> Parsed<()> {
        Parsed { value: Some(()), rest: words, errors: Seq::empty() }
    }

    open spec fn spec_starting_keywords() -> Seq<Seq<char>> {
        Seq::empty()
    }

    fn parse<'l>(words: VecWindow<'l, Word>) -> (res: ParseResult<'l, ()>) {
        let res = ParseResult(Some(()), words, Vec::new());
        assert(error_views(res.2@) =~= Seq::empty());
        res
    }

    fn starting_keywords() -> (res: Vec<&'static str>) {
        Vec::new()
    }
}

} // verus!
