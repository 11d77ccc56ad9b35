//! Building blocks for the parsers of grammar types: a record reads its
//! fields one after the other, and a tagged union tries its variants in turn.
use vstd::prelude::*;
use crate::ambiguity::{branch_views, flatten_branched, flatten_branched_errors};
use crate::basics::{lemma_first_token, no_errors, parse_text, read_text, same_text, spec_leaf};
use crate::result::{error_views, tokens, ParseError, ParseErrorView, ParseResult, Parser};
use crate::window::{VecWindow, WindowView};
use crate::words::Word;

verus! {

/// The fields of one value, read one after the other from an advancing
/// window. The errors of every field that gave a value are kept.
pub struct Fields<'l> {
    words: VecWindow<'l, Word>,
    errors: Vec<ParseError>,
}

impl<'l> Fields<'l> {
    /// The words that are still to be read.
    pub closed spec fn rest(&self) -> WindowView<Word> {
        self.words@
    }

    /// The errors met so far.
    pub closed spec fn errors(&self) -> Seq<ParseErrorView> {
        error_views(self.errors@)
    }

    /// Nothing read yet.
    pub fn new(words: VecWindow<'l, Word>) -> (res: Self)
        ensures
            res.rest() == words@,
            res.errors() == Seq::<ParseErrorView>::empty(),
    {
        Fields { words, errors: no_errors() }
    }

    /// Takes the literal word `text`. If another word or none stands there,
    /// nothing is taken, and the errors met so far give way to the one error
    /// that `text` was expected.
    pub fn text(&mut self, text: &str) -> (found: bool)
        ensures
            found == (spec_leaf(tokens(old(self).rest()), text@, read_text(text@)).value is Some),
            found ==> final(self).errors() == old(self).errors(),
            !found ==> final(self).errors() == spec_leaf(
                tokens(old(self).rest()),
                text@,
                read_text(text@),
            ).errors,
            tokens(final(self).rest()) == spec_leaf(
                tokens(old(self).rest()),
                text@,
                read_text(text@),
            ).rest,
    {
        let ParseResult(found, words, errors) = parse_text(self.words.clone(), text);
        self.words = words;
        match found {
            Some(_) => true,
            None => {
                self.errors = errors;
                false
            },
        }
    }

    /// Reads a `T`. The window moves to where `T` left it and the errors of
    /// `T` are added to those met so far, whether or not there is a value.
    pub fn field<T: Parser<T>>(&mut self) -> (value: Option<T>)
        ensures
            tokens(final(self).rest()) == T::spec_parse(tokens(old(self).rest())).rest,
            final(self).errors() == old(self).errors() + T::spec_parse(
                tokens(old(self).rest()),
            ).errors,
            match value {
                Some(out) => T::spec_parse(tokens(old(self).rest())).value == Some(
                    T::value_of(out),
                ),
                None => T::spec_parse(tokens(old(self).rest())).value is None,
            },
    {
        let ghost so_far = self.errors@;
        let ParseResult(value, words, mut errors) = T::parse(self.words.clone());
        let ghost added = errors@;
        self.words = words;
        self.errors.append(&mut errors);
        assert(error_views(self.errors@) =~= error_views(so_far) + error_views(added));
        value
    }

    /// The result of the whole: the value, if every field gave one, with
    /// the window and the errors as they stand.
    pub fn finish<T>(self, value: Option<T>) -> (res: ParseResult<'l, T>)
        ensures
            res.0 == value,
            res.1@ == self.rest(),
            error_views(res.2@) == self.errors(),
    {
        ParseResult(value, self.words, self.errors)
    }
}

/// The variants of one tagged union, tried in turn on the same window. The
/// errors of every variant that failed are kept apart, so that in the end
/// those of the variants that got furthest can be told from the rest.
pub struct Variants<'l> {
    words: VecWindow<'l, Word>,
    errors: Vec<Vec<ParseError>>,
}

impl<'l> Variants<'l> {
    /// The words that every variant is tried on.
    pub closed spec fn words(&self) -> WindowView<Word> {
        self.words@
    }

    /// The errors of the variants that failed so far, in the order in which
    /// they were tried.
    pub closed spec fn branches(&self) -> Seq<Seq<ParseErrorView>> {
        branch_views(self.errors@)
    }

    /// No variant tried yet.
    pub fn new(words: VecWindow<'l, Word>) -> (res: Self)
        ensures
            res.words() == words@,
            res.branches() == Seq::<Seq<ParseErrorView>>::empty(),
    {
        let errors: Vec<Vec<ParseError>> = Vec::new();
        assert(branch_views(errors@) =~= Seq::<Seq<ParseErrorView>>::empty());
        Variants { words, errors }
    }

    /// The window to try the next variant on.
    pub fn window(&self) -> (res: VecWindow<'l, Word>)
        ensures
            res@ == self.words(),
    {
        self.words.clone()
    }

    /// The first word is the literal `keyword`.
    pub fn starts_with(&self, keyword: &str) -> (res: bool)
        ensures
            res == match tokens(self.words()).first() {
                Some(word) => word.is_text(keyword@),
                None => false,
            },
    {
        self.words.well_formed();
        proof {
            lemma_first_token(self.words@);
        }
        match self.words.first() {
            Some(word) => match word.get_word() {
                Some(text) => same_text(text, keyword),
                None => false,
            },
            None => false,
        }
    }

    /// Takes in what a variant gave. A result with a value is handed back: it
    /// is the result of the whole. Of a result without a value the errors
    /// are kept as one more branch.
    pub fn attempt<T>(&mut self, result: ParseResult<'l, T>) -> (res: Option<ParseResult<'l, T>>)
        ensures
            final(self).words() == old(self).words(),
            match res {
                Some(given) => result.0 is Some && given == result && final(self).branches()
                    == old(self).branches(),
                None => result.0 is None && final(self).branches() == old(self).branches().push(
                    error_views(result.2@),
                ),
            },
    {
        let ParseResult(value, words, errors) = result;
        match value {
            Some(value) => Some(ParseResult(Some(value), words, errors)),
            None => {
                let ghost so_far = self.errors@;
                self.errors.push(errors);
                assert(branch_views(self.errors@) =~= branch_views(so_far).push(
                    error_views(errors@),
                ));
                None
            },
        }
    }

    /// The result when no variant gave a value: a failure with the window
    /// untouched and the errors of all variants, those of every variant that
    /// did not get as far as the deepest marked as unlikely.
    pub fn finish<T>(self) -> (res: ParseResult<'l, T>)
        ensures
            res.0 is None,
            res.1@ == self.words(),
            error_views(res.2@) == flatten_branched(self.branches()),
    {
        ParseResult(None, self.words, flatten_branched_errors(self.errors))
    }
}

} // verus!
