//! Parsers that cut the window into parts and read each part on its own.
//!
//! A part that cannot be read costs only that part: its errors are kept and
//! the parts around it are read all the same.
use vstd::prelude::*;
use std::marker::PhantomData;
use crate::basics::{
    leaf_error, leaf_failure, lemma_first_token, no_errors, same_text, single_error,
};
use crate::collections::item_values;
use crate::result::{error_views, tokens, ParseError, ParseErrorView, ParseResult, Parsed, Parser};
use crate::window::{window_views, VecWindow, WindowView};
use crate::words::{lemma_word_views, Word, WordView};

verus! {

/// A type that names the literal word which separates the items of a list.
pub trait SeparatedBySeparator {
    const SEPARATOR: &'static str;
}

/// The separator `,`.
#[derive(Clone, Copy, Debug, PartialEq, Eq)]
pub struct Comma {}

impl SeparatedBySeparator for Comma {
    const SEPARATOR: &'static str = ",";
}

/// The separator `:`.
#[derive(Clone, Copy, Debug, PartialEq, Eq)]
pub struct Colon {}

impl SeparatedBySeparator for Colon {
    const SEPARATOR: &'static str = ":";
}

/// The separator `;`.
#[derive(Clone, Copy, Debug, PartialEq, Eq)]
pub struct Semicolon {}

impl SeparatedBySeparator for Semicolon {
    const SEPARATOR: &'static str = ";";
}

/// The separator `->`.
#[derive(Clone, Copy, Debug, PartialEq, Eq)]
pub struct ArrowRight {}

impl SeparatedBySeparator for ArrowRight {
    const SEPARATOR: &'static str = "->";
}

/// The positions of a window that hold the literal `text`.
pub open spec fn text_marks(words: WindowView<WordView>, text: Seq<char>) -> spec_fn(int) -> bool {
    |i: int| words.items[i].is_text(text)
}

/// The text by which a word is held against the keywords: its own, or the
/// empty text for a bracket group.
pub open spec fn keyword_text(word: WordView) -> Seq<char> {
    match word.text() {
        Some(text) => text,
        None => Seq::empty(),
    }
}

/// The word begins a statement: its text is one of the keywords.
pub open spec fn is_keyword(word: WordView, keywords: Seq<Seq<char>>) -> bool {
    keywords.contains(keyword_text(word))
}

/// The positions of a window that hold one of the keywords.
pub open spec fn keyword_marks(words: WindowView<WordView>, keywords: Seq<Seq<char>>) -> spec_fn(
    int,
) -> bool {
    |i: int| is_keyword(words.items[i], keywords)
}

/// The tokens that each of a list of windows shows.
pub open spec fn part_tokens(parts: Seq<WindowView<Word>>) -> Seq<WindowView<WordView>> {
    parts.map_values(|part: WindowView<Word>| tokens(part))
}

/// What reading a `T` in each part gives: the items read, and the errors met.
pub ghost struct Gathered<V> {
    pub items: Seq<V>,
    pub errors: Seq<ParseErrorView>,
}

/// Reads a `T` in each of the first `count` parts. A part that gives a value
/// adds an item; every part adds its errors. A part that reports no error and
/// yet leaves a word adds one error that names `expected` and that word;
/// the last part of all does so only if `check_last`.
pub open spec fn spec_gather<T: Parser<T>>(
    parts: Seq<WindowView<WordView>>,
    count: nat,
    expected: Seq<char>,
    check_last: bool,
) -> Gathered<T::Value>
    decreases count,
{
    if count == 0 || count > parts.len() {
        Gathered { items: Seq::empty(), errors: Seq::empty() }
    } else {
        let before = spec_gather::<T>(parts, (count - 1) as nat, expected, check_last);
        let one = T::spec_parse(parts[count - 1]);
        let left_over = (check_last || count < parts.len()) && one.errors.len() == 0
            && one.rest.size() > 0;
        Gathered {
            items: match one.value {
                Some(value) => before.items.push(value),
                None => before.items,
            },
            errors: before.errors + one.errors + if left_over {
                seq![leaf_error(expected, one.rest.first())]
            } else {
                Seq::empty()
            },
        }
    }
}

/// Cutting a window of words and looking at the tokens of the pieces is
/// cutting the window of tokens.
pub proof fn lemma_split_tokens(words: WindowView<Word>, marks: spec_fn(int) -> bool)
    ensures
        part_tokens(words.split_including_start(marks)) == tokens(words).split_including_start(
            marks,
        ),
        part_tokens(words.split(marks)) == tokens(words).split(marks),
{
    assert(part_tokens(words.split_including_start(marks)) =~= tokens(
        words,
    ).split_including_start(marks));
    assert(part_tokens(words.split(marks)) =~= tokens(words).split(marks));
}

/// Reads a `T` in each part. Returns the items, the window that the last
/// part left (`fallback` if there is no part), and the errors.
fn gather<'l, T: Parser<T>>(
    parts: Vec<VecWindow<'l, Word>>,
    expected: &str,
    check_last: bool,
    fallback: VecWindow<'l, Word>,
) -> (res: (Vec<T>, VecWindow<'l, Word>, Vec<ParseError>))
    ensures
        item_values::<T, T>(res.0@) == spec_gather::<T>(
            part_tokens(window_views(parts@)),
            parts@.len(),
            expected@,
            check_last,
        ).items,
        error_views(res.2@) == spec_gather::<T>(
            part_tokens(window_views(parts@)),
            parts@.len(),
            expected@,
            check_last,
        ).errors,
        parts@.len() == 0 ==> res.1@ == fallback@,
        parts@.len() > 0 ==> tokens(res.1@) == T::spec_parse(tokens(parts@.last()@)).rest,
{
    let ghost shown = part_tokens(window_views(parts@));
    let mut res: Vec<T> = Vec::new();
    let mut errors = no_errors();
    let mut rest = fallback;
    let len = parts.len();
    let mut i: usize = 0;
    assert(item_values::<T, T>(res@) =~= Seq::<T::Value>::empty());
    while i < len
        invariant
            i <= len,
            len == parts@.len(),
            shown == part_tokens(window_views(parts@)),
            item_values::<T, T>(res@) == spec_gather::<T>(
                shown,
                i as nat,
                expected@,
                check_last,
            ).items,
            error_views(errors@) == spec_gather::<T>(shown, i as nat, expected@, check_last).errors,
            i == 0 ==> rest@ == fallback@,
            i > 0 ==> tokens(rest@) == T::spec_parse(tokens(parts@[i - 1]@)).rest,
        decreases len - i,
    {
        let ghost items_before = res@;
        let ghost errors_before = errors@;
        let part = parts[i].clone();
        assert(shown[i as int] == tokens(part@));
        let ParseResult(item, new_words, mut new_errors) = T::parse(part);
        let ghost one = T::spec_parse(shown[i as int]);
        let no_errors = new_errors.is_empty();
        errors.append(&mut new_errors);
        assert(error_views(errors@) =~= error_views(errors_before) + one.errors);
        if let Some(item) = item {
            let ghost value = T::value_of(item);
            res.push(item);
            assert(item_values::<T, T>(res@) =~= item_values::<T, T>(items_before).push(value));
        }
        new_words.well_formed();
        proof {
            lemma_first_token(new_words@);
        }
        if (check_last || i + 1 < len) && no_errors {
            if let Some(word) = new_words.first() {
                let ghost so_far = errors@;
                let found = word.clone();
                let mut extra = single_error(expected, Some(found));
                errors.append(&mut extra);
                assert(error_views(errors@) =~= error_views(so_far) + seq![
                    leaf_error(expected@, one.rest.first()),
                ]);
            }
        }
        assert(error_views(errors@) =~= spec_gather::<T>(
            shown,
            (i + 1) as nat,
            expected@,
            check_last,
        ).errors);
        rest = new_words;
        i += 1;
    }
    (res, rest, errors)
}

/// A word is the literal `text`.
fn is_text(word: &Word, text: &str) -> (res: bool)
    ensures
        res == word@.is_text(text@),
{
    match word.get_word() {
        Some(found) => same_text(found, text),
        None => false,
    }
}

/// Items, each a `T`, with the separator `BY` between them.
#[derive(Debug, PartialEq, Eq)]
pub struct SeparatedBy<BY: SeparatedBySeparator, T>(pub Vec<T>, pub PhantomData<BY>);

impl<BY: SeparatedBySeparator, T: Clone> Clone for SeparatedBy<BY, T> {
    fn clone(&self) -> (res: Self)
        ensures
            res.0@.len() == self.0@.len(),
            forall|i: int| 0 <= i < self.0@.len() ==> cloned::<T>(#[trigger] self.0@[i], res.0@[i]),
    {
        SeparatedBy(self.0.clone(), PhantomData)
    }
}

impl<BY: SeparatedBySeparator, T: Parser<T>> Parser<SeparatedBy<BY, T>> for SeparatedBy<BY, T> {
    type Value = Seq<T::Value>;

    open spec fn value_of(out: SeparatedBy<BY, T>) -> Seq<T::Value> {
        item_values::<T, T>(out.0@)
    }

    /// The window is cut at every separator but one that stands first, and a
    /// `T` is read in each part. It never fails: the value holds the items of
    /// the parts that gave one. A part before the last that reports no error
    /// and leaves a word adds the error that the separator was expected
    /// there. The window is what the last part left.
    open spec fn spec_parse(words: WindowView<WordView>) -> Parsed<Seq<T::Value>> {
        let parts = words.split(text_marks(words, BY::SEPARATOR@));
        let gathered = spec_gather::<T>(parts, parts.len(), BY::SEPARATOR@, false);
        Parsed {
            value: Some(gathered.items),
            rest: if parts.len() == 0 {
                words
            } else {
                T::spec_parse(parts.last()).rest
            },
            errors: gathered.errors,
        }
    }

    open spec fn spec_starting_keywords() -> Seq<Seq<char>> {
        Seq::empty()
    }

    fn parse<'l>(words: VecWindow<'l, Word>) -> (res: ParseResult<'l, SeparatedBy<BY, T>>) {
        words.well_formed();
        let separator = BY::SEPARATOR;
        let ghost marks = text_marks(tokens(words@), separator@);
        let on = |word: &Word| -> (b: bool)
            ensures
                b == word@.is_text(separator@),
            { is_text(word, separator) };
        proof {
            lemma_word_views(words@.items);
            assert(words@.marked_by(on, marks, words@.start + 1));
        }
        let parts = words.clone().split(on);
        proof {
            assert(window_views(parts@) == words@.split(marks));
            lemma_split_tokens(words@, marks);
            assert forall|k: int| 0 <= k < parts@.len() implies (#[trigger] parts@[k])@.items
                == words@.items by {
                assert(window_views(parts@)[k] == parts@[k]@);
            }
        }
        let (items, rest, errors) = gather::<T>(parts, separator, false, words);
        ParseResult(Some(SeparatedBy(items, PhantomData)), rest, errors)
    }

    fn starting_keywords() -> (res: Vec<&'static str>) {
        Vec::new()
    }
}

/// An `A` and a `B` with the separator `BY` between them.
#[derive(Debug, PartialEq, Eq)]
pub struct SeparatedOnce<BY: SeparatedBySeparator, A, B>(pub A, pub B, pub PhantomData<BY>);

impl<BY: SeparatedBySeparator, A: Clone, B: Clone> Clone for SeparatedOnce<BY, A, B> {
    fn clone(&self) -> (res: Self)
        ensures
            cloned::<A>(self.0, res.0),
            cloned::<B>(self.1, res.1),
    {
        SeparatedOnce(self.0.clone(), self.1.clone(), PhantomData)
    }
}

impl<BY: SeparatedBySeparator, A: Parser<A>, B: Parser<B>> Parser<
    SeparatedOnce<BY, A, B>,
> for SeparatedOnce<BY, A, B> {
    type Value = (A::Value, B::Value);

    open spec fn value_of(out: SeparatedOnce<BY, A, B>) -> (A::Value, B::Value) {
        (A::value_of(out.0), B::value_of(out.1))
    }

    /// The window is cut at the first separator. Without one the parse
    /// fails with the window untouched and the one error that the separator
    /// was expected and the input ended. `A` is read in front of the
    /// separator and must leave nothing there: a word that it leaves is the
    /// error that the separator was expected in its place. `B` is read behind
    /// the separator and must leave nothing either: a word that it leaves is
    /// the error that the input was expected to end there. The window is what
    /// `B` left. Where `A` or `B` fails or leaves a word the whole fails, with
    /// the window that the failing one left and all errors met so far.
    open spec fn spec_parse(words: WindowView<WordView>) -> Parsed<(A::Value, B::Value)> {
        match words.split_once(text_marks(words, BY::SEPARATOR@)) {
            None => leaf_failure(words, BY::SEPARATOR@, None),
            Some((head, tail)) => {
                let first = A::spec_parse(head);
                match first.value {
                    None => Parsed { value: None, rest: first.rest, errors: first.errors },
                    Some(a) => if first.rest.size() > 0 {
                        Parsed {
                            value: None,
                            rest: first.rest,
                            errors: first.errors.push(
                                leaf_error(BY::SEPARATOR@, first.rest.first()),
                            ),
                        }
                    } else {
                        let second = B::spec_parse(tail);
                        match second.value {
                            None => Parsed {
                                value: None,
                                rest: second.rest,
                                errors: first.errors + second.errors,
                            },
                            Some(b) => if second.rest.size() > 0 {
                                Parsed {
                                    value: None,
                                    rest: second.rest,
                                    errors: (first.errors + second.errors).push(
                                        leaf_error("[end of input]"@, second.rest.first()),
                                    ),
                                }
                            } else {
                                Parsed {
                                    value: Some((a, b)),
                                    rest: second.rest,
                                    errors: first.errors + second.errors,
                                }
                            },
                        }
                    },
                }
            },
        }
    }

    open spec fn spec_starting_keywords() -> Seq<Seq<char>> {
        Seq::empty()
    }

    fn parse<'l>(words: VecWindow<'l, Word>) -> (res: ParseResult<'l, SeparatedOnce<BY, A, B>>) {
        words.well_formed();
        let separator = BY::SEPARATOR;
        let ghost marks = text_marks(tokens(words@), separator@);
        let on = |word: &Word| -> (b: bool)
            ensures
                b == word@.is_text(separator@),
            { is_text(word, separator) };
        proof {
            lemma_word_views(words@.items);
            assert(words@.marked_by(on, marks, words@.start));
            assert(tokens(words@).split_once(marks) == match words@.split_once(marks) {
                Some((head, tail)) => Some((tokens(head), tokens(tail))),
                None => None,
            });
        }
        let Some((first, second)) = words.clone().split_once(on) else {
            return ParseResult(None, words, single_error(separator, None));
        };
        let ParseResult(res1, rest, mut errors) = A::parse(first);
        let Some(res1) = res1 else {
            return ParseResult(None, rest, errors);
        };
        rest.well_formed();
        proof {
            lemma_first_token(rest@);
        }
        if let Some(word) = rest.first() {
            let ghost so_far = errors@;
            let mut extra = single_error(separator, Some(word.clone()));
            let ghost added = extra@;
            errors.append(&mut extra);
            assert(error_views(errors@) =~= error_views(so_far) + error_views(added));
            assert(error_views(errors@) =~= error_views(so_far).push(
                leaf_error(separator@, tokens(rest@).first()),
            ));
            return ParseResult(None, rest, errors);
        }
        let ParseResult(res2, rest, mut new_errors) = B::parse(second);
        let ghost so_far = errors@;
        let ghost added = new_errors@;
        errors.append(&mut new_errors);
        assert(error_views(errors@) =~= error_views(so_far) + error_views(added));
        let Some(res2) = res2 else {
            return ParseResult(None, rest, errors);
        };
        rest.well_formed();
        proof {
            lemma_first_token(rest@);
        }
        if let Some(word) = rest.first() {
            let ghost so_far = errors@;
            let mut extra = single_error("[end of input]", Some(word.clone()));
            let ghost added = extra@;
            errors.append(&mut extra);
            assert(error_views(errors@) =~= error_views(so_far) + error_views(added));
            assert(error_views(errors@) =~= error_views(so_far).push(
                leaf_error("[end of input]"@, tokens(rest@).first()),
            ));
            return ParseResult(None, rest, errors);
        }
        ParseResult(Some(SeparatedOnce(res1, res2, PhantomData)), rest, errors)
    }

    fn starting_keywords() -> (res: Vec<&'static str>) {
        Vec::new()
    }
}

/// The word is one of the keywords; a bracket group counts as the empty text.
fn starts_statement(word: &Word, keywords: &Vec<&'static str>) -> (res: bool)
    ensures
        res == exists|k: int|
            0 <= k < keywords@.len() && (#[trigger] keywords@[k])@ == keyword_text(word@),
{
    let text = match word.get_word() {
        Some(text) => text,
        None => "",
    };
    proof {
        reveal_strlit("");
        assert(""@ =~= Seq::<char>::empty());
    }
    let mut k: usize = 0;
    while k < keywords.len()
        invariant
            k <= keywords@.len(),
            text@ == keyword_text(word@),
            forall|j: int| 0 <= j < k ==> (#[trigger] keywords@[j])@ != text@,
        decreases keywords.len() - k,
    {
        if same_text(keywords[k], text) {
            return true;
        }
        k += 1;
    }
    false
}

/// Statements, each a `T` that starts with one of its keywords.
#[derive(Clone, Debug, PartialEq, Eq)]
pub struct StartTextVec<T>(pub Vec<T>);

/// What reading statements yields: the window is cut in front of every word
/// but the first that is a starting keyword of `T`, and a `T` is read in each
/// part. It never fails: the value holds the items of the parts that gave
/// one. A part that reports no error and leaves a word adds the error that
/// the statement was expected to end there. The whole window counts as read:
/// what is left is the empty window at its end.
pub open spec fn spec_statements<T: Parser<T>>(words: WindowView<WordView>) -> Parsed<
    Seq<T::Value>,
> {
    let parts = words.split_including_start(keyword_marks(words, T::spec_starting_keywords()));
    let gathered = spec_gather::<T>(parts, parts.len(), "[end of statement]"@, true);
    Parsed { value: Some(gathered.items), rest: words.emptied(), errors: gathered.errors }
}

fn statements<'l, T: Parser<T>>(words: VecWindow<'l, Word>) -> (res: (
    Vec<T>,
    VecWindow<'l, Word>,
    Vec<ParseError>,
))
    ensures
        item_values::<T, T>(res.0@) == spec_statements::<T>(tokens(words@)).value->0,
        tokens(res.1@) == spec_statements::<T>(tokens(words@)).rest,
        error_views(res.2@) == spec_statements::<T>(tokens(words@)).errors,
{
    words.well_formed();
    let statement_keywords = T::starting_keywords();
    let ghost keywords = T::spec_starting_keywords();
    let ghost marks = keyword_marks(tokens(words@), keywords);
    let on = |word: &Word| -> (b: bool)
        ensures
            b == is_keyword(word@, T::spec_starting_keywords()),
        {
            let found = starts_statement(word, &statement_keywords);
            proof {
                let text = keyword_text(word@);
                let keywords = T::spec_starting_keywords();
                if found {
                    let k = choose|k: int|
                        0 <= k < statement_keywords@.len() && (#[trigger] statement_keywords@[k])@
                            == text;
                    assert(keywords[k] == text);
                } else {
                    assert forall|k: int| 0 <= k < keywords.len() implies keywords[k] != text by {
                        assert(statement_keywords@[k]@ == keywords[k]);
                    }
                }
            }
            found
        };
    proof {
        lemma_word_views(words@.items);
        assert(words@.marked_by(on, marks, words@.start + 1));
    }
    let parts = words.clone().split_including_start(on);
    proof {
        assert(window_views(parts@) == words@.split_including_start(marks));
        lemma_split_tokens(words@, marks);
    }
    let (items, _, errors) = gather::<T>(parts, "[end of statement]", true, words.clone());
    (items, words.empty(), errors)
}

impl<T: Parser<T>> Parser<StartTextVec<T>> for StartTextVec<T> {
    type Value = Seq<T::Value>;

    open spec fn value_of(out: StartTextVec<T>) -> Seq<T::Value> {
        item_values::<T, T>(out.0@)
    }

    open spec fn spec_parse(words: WindowView<WordView>) -> Parsed<Seq<T::Value>> {
        spec_statements::<T>(words)
    }

    open spec fn spec_starting_keywords() -> Seq<Seq<char>> {
        Seq::empty()
    }

    fn parse<'l>(words: VecWindow<'l, Word>) -> (res: ParseResult<'l, StartTextVec<T>>) {
        let (items, rest, errors) = statements::<T>(words);
        ParseResult(Some(StartTextVec(items)), rest, errors)
    }

    fn starting_keywords() -> (res: Vec<&'static str>) {
        Vec::new()
    }
}

/// One or more statements, each a `T` that starts with one of its keywords.
#[derive(Clone, Debug, PartialEq, Eq)]
pub struct NonEmptyStartTextVec<T>(pub Vec<T>);

impl<T: Parser<T>> Parser<NonEmptyStartTextVec<T>> for NonEmptyStartTextVec<T> {
    type Value = Seq<T::Value>;

    open spec fn value_of(out: NonEmptyStartTextVec<T>) -> Seq<T::Value> {
        item_values::<T, T>(out.0@)
    }

    /// As for statements, but with no item at all it fails, with the same
    /// window and errors.
    open spec fn spec_parse(words: WindowView<WordView>) -> Parsed<Seq<T::Value>> {
        let all = spec_statements::<T>(words);
        Parsed {
            value: if all.value->0.len() == 0 {
                None
            } else {
                all.value
            },
            rest: all.rest,
            errors: all.errors,
        }
    }

    open spec fn spec_starting_keywords() -> Seq<Seq<char>> {
        Seq::empty()
    }

    fn parse<'l>(words: VecWindow<'l, Word>) -> (res: ParseResult<'l, NonEmptyStartTextVec<T>>)
        ensures
            res.0 matches Some(items) ==> items.0@.len() > 0,
    {
        let (items, rest, errors) = statements::<T>(words);
        assert(item_values::<T, T>(items@).len() == items@.len());
        if items.is_empty() {
            return ParseResult(None, rest, errors);
        }
        ParseResult(Some(NonEmptyStartTextVec(items)), rest, errors)
    }

    fn starting_keywords() -> (res: Vec<&'static str>) {
        Vec::new()
    }
}

} // verus!
