//! Parsers for one thing after another: repetition and pairs.
use vstd::prelude::*;
use crate::basics::no_errors;
use crate::result::{error_views, tokens, ParseError, ParseErrorView, ParseResult, Parsed, Parser};
use crate::window::{VecWindow, WindowView};
use crate::words::{Word, WordView};

verus! {

/// The values of a list of parsed items.
pub open spec fn item_values<T: Parser<Out>, Out>(items: Seq<Out>) -> Seq<T::Value> {
    items.map_values(|item: Out| T::value_of(item))
}

/// What repeating `T` yields once a first attempt on `words` has given
/// `one`: the item of that attempt and all that follow, as long as each
/// attempt gives an item and leaves a smaller window. The attempt that fails
/// is dropped with its errors, and the window is the one it was made on.
pub open spec fn spec_repeat_after<T: Parser<Out>, Out>(
    words: WindowView<WordView>,
    one: Parsed<T::Value>,
) -> Parsed<Seq<T::Value>>
    decreases words.size(), 0nat,
{
    match one.value {
        None => Parsed { value: Some(Seq::empty()), rest: words, errors: Seq::empty() },
        Some(item) => if one.rest.size() < words.size() {
            let more = spec_repeat::<T, Out>(one.rest);
            Parsed {
                value: Some(seq![item] + more.value->0),
                rest: more.rest,
                errors: one.errors + more.errors,
            }
        } else {
            Parsed { value: Some(seq![item]), rest: one.rest, errors: one.errors }
        },
    }
}

/// What repeating `T` yields: the items of the attempts made one after the
/// other until the window is empty, an attempt fails, or an attempt leaves
/// the window no smaller than it found it. It never fails.
pub open spec fn spec_repeat<T: Parser<Out>, Out>(words: WindowView<WordView>) -> Parsed<
    Seq<T::Value>,
>
    decreases words.size(), 1nat,
{
    if words.size() == 0 {
        Parsed { value: Some(Seq::empty()), rest: words, errors: Seq::empty() }
    } else {
        spec_repeat_after::<T, Out>(words, T::spec_parse(words))
    }
}

/// On an empty window, repeating any `T` gives no item and no error, and
/// leaves the window as it is.
pub proof fn lemma_repeat_empty<T: Parser<Out>, Out>(words: WindowView<WordView>)
    requires
        words.size() == 0,
    ensures
        spec_repeat::<T, Out>(words) == (Parsed::<Seq<T::Value>> {
            value: Some(Seq::empty()),
            rest: words,
            errors: Seq::empty(),
        }),
{
}

/// Repeats `T` from `words` on and adds what it reads to `items` and
/// `errors`.
fn repeat<'l, T: Parser<Out>, Out>(
    words: VecWindow<'l, Word>,
    items: &mut Vec<Out>,
    errors: &mut Vec<ParseError>,
) -> (rest: VecWindow<'l, Word>)
    ensures
        words@.size() == 0 ==> rest@ == words@,
        tokens(rest@) == spec_repeat::<T, Out>(tokens(words@)).rest,
        item_values::<T, Out>(final(items)@) == item_values::<T, Out>(old(items)@) + spec_repeat::<
            T,
            Out,
        >(tokens(words@)).value->0,
        error_views(final(errors)@) == error_views(old(errors)@) + spec_repeat::<T, Out>(
            tokens(words@),
        ).errors,
{
    let ghost all = spec_repeat::<T, Out>(tokens(words@));
    let ghost first = words@;
    let mut words = words;
    assert(item_values::<T, Out>(items@) + all.value->0 =~= item_values::<T, Out>(old(items)@)
        + all.value->0);
    assert(error_views(errors@) + all.errors =~= error_views(old(errors)@) + all.errors);
    loop
        invariant_except_break
            item_values::<T, Out>(items@) + spec_repeat::<T, Out>(tokens(words@)).value->0
                == item_values::<T, Out>(old(items)@) + all.value->0,
            error_views(errors@) + spec_repeat::<T, Out>(tokens(words@)).errors == error_views(
                old(errors)@,
            ) + all.errors,
            spec_repeat::<T, Out>(tokens(words@)).rest == all.rest,
        invariant
            first.size() == 0 ==> words@ == first,
            spec_repeat::<T, Out>(tokens(words@)).value is Some,
        ensures
            first.size() == 0 ==> words@ == first,
            tokens(words@) == all.rest,
            item_values::<T, Out>(items@) == item_values::<T, Out>(old(items)@) + all.value->0,
            error_views(errors@) == error_views(old(errors)@) + all.errors,
        decreases words@.size(),
    {
        let ghost here = tokens(words@);
        let ghost so_far = items@;
        let ghost errors_so_far = errors@;
        if words.is_empty() {
            assert(item_values::<T, Out>(items@) + Seq::<T::Value>::empty() =~= item_values::<
                T,
                Out,
            >(items@));
            assert(error_views(errors@) + Seq::<ParseErrorView>::empty() =~= error_views(errors@));
            break ;
        }
        let before = words.clone();
        let ParseResult(item, new_words, mut new_errors) = T::parse(words);
        let ghost one = T::spec_parse(here);
        match item {
            Some(item) => {
                let ghost value = T::value_of(item);
                errors.append(&mut new_errors);
                items.push(item);
                let progress = new_words.size() < before.size();
                words = new_words;
                proof {
                    assert(item_values::<T, Out>(items@) =~= item_values::<T, Out>(so_far).push(
                        value,
                    ));
                    assert(error_views(errors@) =~= error_views(errors_so_far) + one.errors);
                    let more = spec_repeat::<T, Out>(tokens(words@));
                    if progress {
                        assert(item_values::<T, Out>(items@) + more.value->0 =~= item_values::<
                            T,
                            Out,
                        >(so_far) + (seq![value] + more.value->0));
                        assert(error_views(errors@) + more.errors =~= error_views(errors_so_far)
                            + (one.errors + more.errors));
                    } else {
                        assert(item_values::<T, Out>(items@) =~= item_values::<T, Out>(so_far)
                            + seq![value]);
                    }
                }
                if !progress {
                    break ;
                }
            },
            None => {
                words = before;
                assert(item_values::<T, Out>(items@) + Seq::<T::Value>::empty()
                    =~= item_values::<T, Out>(items@));
                assert(error_views(errors@) + Seq::<ParseErrorView>::empty() =~= error_views(
                    errors@,
                ));
                break ;
            },
        }
    }
    words
}

impl<T: Parser<T>> Parser<Vec<T>> for Vec<T> {
    type Value = Seq<T::Value>;

    open spec fn value_of(out: Vec<T>) -> Seq<T::Value> {
        item_values::<T, T>(out@)
    }

    /// The items that repeating `T` reads. On an empty window that is no
    /// item and no error.
    open spec fn spec_parse(words: WindowView<WordView>) -> Parsed<Seq<T::Value>> {
        spec_repeat::<T, T>(words)
    }

    open spec fn spec_starting_keywords() -> Seq<Seq<char>> {
        Seq::empty()
    }

    fn parse<'l>(words: VecWindow<'l, Word>) -> (res: ParseResult<'l, Vec<T>>)
        ensures
            words@.size() == 0 ==> (res.0 matches Some(items) && items@.len() == 0 && res.2@.len()
                == 0 && res.1@ == words@),
    {
        words.well_formed();
        let mut res: Vec<T> = Vec::new();
        let mut errors = no_errors();
        let rest = repeat::<T, T>(words, &mut res, &mut errors);
        proof {
            let all = spec_repeat::<T, T>(tokens(words@));
            assert(item_values::<T, T>(Seq::<T>::empty()) =~= Seq::<T::Value>::empty());
            assert(item_values::<T, T>(res@) =~= all.value->0);
            assert(error_views(errors@) =~= all.errors);
            if words@.size() == 0 {
                assert(item_values::<T, T>(res@).len() == res@.len());
                assert(error_views(errors@).len() == errors@.len());
            }
        }
        ParseResult(Some(res), rest, errors)
    }

    fn starting_keywords() -> (res: Vec<&'static str>) {
        Vec::new()
    }
}

/// One or more items, each a `T`.
#[derive(Clone, Debug, PartialEq, Eq)]
pub struct NonEmptyVec<T>(pub Vec<T>);

impl<T: Parser<T>> Parser<NonEmptyVec<T>> for NonEmptyVec<T> {
    type Value = Seq<T::Value>;

    open spec fn value_of(out: NonEmptyVec<T>) -> Seq<T::Value> {
        item_values::<T, T>(out.0@)
    }

    /// As for a plain list, but a first attempt is made even on an empty
    /// window, and if that attempt fails so does the whole, with the window
    /// and the errors of the attempt.
    open spec fn spec_parse(words: WindowView<WordView>) -> Parsed<Seq<T::Value>> {
        let one = T::spec_parse(words);
        match one.value {
            None => Parsed { value: None, rest: one.rest, errors: one.errors },
            Some(_) => spec_repeat_after::<T, T>(words, one),
        }
    }

    open spec fn spec_starting_keywords() -> Seq<Seq<char>> {
        Seq::empty()
    }

    fn parse<'l>(words: VecWindow<'l, Word>) -> (res: ParseResult<'l, NonEmptyVec<T>>)
        ensures
            res.0 matches Some(items) ==> items.0@.len() > 0,
    {
        let size = words.size();
        let ghost here = tokens(words@);
        let ParseResult(item, rest, mut errors) = T::parse(words);
        let Some(item) = item else {
            return ParseResult(None, rest, errors);
        };
        let ghost value = T::value_of(item);
        let mut res: Vec<T> = Vec::new();
        res.push(item);
        assert(item_values::<T, T>(res@) =~= seq![value]);
        if rest.size() < size {
            let rest = repeat::<T, T>(rest, &mut res, &mut errors);
            proof {
                assert(item_values::<T, T>(res@).len() == res@.len());
            }
            ParseResult(Some(NonEmptyVec(res)), rest, errors)
        } else {
            ParseResult(Some(NonEmptyVec(res)), rest, errors)
        }
    }

    fn starting_keywords() -> (res: Vec<&'static str>) {
        Vec::new()
    }
}

impl<T1: Parser<Out1>, Out1, T2: Parser<Out2>, Out2> Parser<(Out1, Out2)> for (T1, T2) {
    type Value = (T1::Value, T2::Value);

    open spec fn value_of(out: (Out1, Out2)) -> (T1::Value, T2::Value) {
        (T1::value_of(out.0), T2::value_of(out.1))
    }

    /// `T1`, then `T2` on what `T1` left. Both must give a value; the errors
    /// of both are then joined. Where one fails the whole fails there, with
    /// the window and the errors of the one that failed.
    open spec fn spec_parse(words: WindowView<WordView>) -> Parsed<(T1::Value, T2::Value)> {
        let first = T1::spec_parse(words);
        match first.value {
            None => Parsed { value: None, rest: first.rest, errors: first.errors },
            Some(a) => {
                let second = T2::spec_parse(first.rest);
                match second.value {
                    None => Parsed { value: None, rest: second.rest, errors: second.errors },
                    Some(b) => Parsed {
                        value: Some((a, b)),
                        rest: second.rest,
                        errors: first.errors + second.errors,
                    },
                }
            },
        }
    }

    open spec fn spec_starting_keywords() -> Seq<Seq<char>> {
        Seq::empty()
    }

    fn parse<'l>(words: VecWindow<'l, Word>) -> (res: ParseResult<'l, (Out1, Out2)>) {
        let ParseResult(res1, words, mut errors1) = T1::parse(words);
        let Some(res1) = res1 else {
            return ParseResult(None, words, errors1);
        };
        let ParseResult(res2, words, mut errors2) = T2::parse(words);
        let Some(res2) = res2 else {
            return ParseResult(None, words, errors2);
        };
        let ghost first = errors1@;
        let ghost second = errors2@;
        errors1.append(&mut errors2);
        assert(error_views(errors1@) =~= error_views(first) + error_views(second));
        ParseResult(Some((res1, res2)), words, errors1)
    }

    fn starting_keywords() -> (res: Vec<&'static str>) {
        Vec::new()
    }
}

} // verus!
