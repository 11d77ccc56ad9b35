//! The leaf parsers: each looks at the first word of the window, takes it on
//! a match, and otherwise fails with one error and the window untouched.
use vstd::prelude::*;
use crate::result::{error_views, tokens, ParseError, ParseErrorView, ParseResult, Parsed, Parser};
use crate::text::{chars_of, classify_text, glyphs_of, text_of, Glyph};
use crate::window::{VecWindow, WindowView};
use crate::words::{lemma_word_views, Word, WordView};

verus! {

/// The error of a leaf parser: what it looked for and what stood there.
pub open spec fn leaf_error(expected: Seq<char>, got: Option<WordView>) -> ParseErrorView {
    ParseErrorView { expected, got, unlikely: false }
}

/// A failure with one error that leaves the window as it is.
pub open spec fn leaf_failure<V>(
    words: WindowView<WordView>,
    expected: Seq<char>,
    got: Option<WordView>,
) -> Parsed<V> {
    Parsed { value: None, rest: words, errors: seq![leaf_error(expected, got)] }
}

/// What a leaf parser yields that reads one word with `read`: on an empty
/// window and on a word that `read` does not take, a failure with one error
/// and the window untouched; else the value, and the window behind the word.
pub open spec fn spec_leaf<V>(
    words: WindowView<WordView>,
    expected: Seq<char>,
    read: spec_fn(WordView) -> Option<V>,
) -> Parsed<V> {
    match words.first() {
        None => leaf_failure(words, expected, None),
        Some(word) => match read(word) {
            Some(value) => Parsed { value: Some(value), rest: words.skip(1), errors: Seq::empty() },
            None => leaf_failure(words, expected, Some(word)),
        },
    }
}

/// A word that the reading does not take leaves the window untouched and
/// yields exactly one error, which holds that word.
pub proof fn lemma_leaf_mismatch<V>(
    words: WindowView<WordView>,
    expected: Seq<char>,
    read: spec_fn(WordView) -> Option<V>,
)
    requires
        words.first() matches Some(word) && read(word) is None,
    ensures
        spec_leaf(words, expected, read).value is None,
        spec_leaf(words, expected, read).rest == words,
        spec_leaf(words, expected, read).errors == seq![leaf_error(expected, words.first())],
{
}

/// A word that the reading takes is the only word taken, and there is no
/// error.
pub proof fn lemma_leaf_match<V>(
    words: WindowView<WordView>,
    expected: Seq<char>,
    read: spec_fn(WordView) -> Option<V>,
)
    requires
        words.wf(),
        words.first() matches Some(word) && read(word) is Some,
    ensures
        spec_leaf(words, expected, read).value == read(words.first()->0),
        spec_leaf(words, expected, read).rest.within(words),
        spec_leaf(words, expected, read).rest.size() + 1 == words.size(),
        spec_leaf(words, expected, read).errors.len() == 0,
{
}

/// A list that holds the one error of a leaf parser.
pub(crate) fn single_error(expected: &str, got: Option<Word>) -> (res: Vec<ParseError>)
    ensures
        error_views(res@) == seq![
            leaf_error(
                expected@,
                match got {
                    Some(word) => Some(word@),
                    None => None,
                },
            ),
        ],
{
    let mut res: Vec<ParseError> = Vec::new();
    let error = ParseError { expected: expected.to_owned(), got, unlikely: false };
    res.push(error);
    assert(error_views(res@) =~= seq![error@]);
    res
}

/// A list of no errors.
pub(crate) fn no_errors() -> (res: Vec<ParseError>)
    ensures
        error_views(res@) == Seq::<ParseErrorView>::empty(),
{
    let res: Vec<ParseError> = Vec::new();
    assert(error_views(res@) =~= Seq::<ParseErrorView>::empty());
    res
}

/// The first word of the window, as a token.
pub proof fn lemma_first_token(words: WindowView<Word>)
    requires
        words.wf(),
    ensures
        tokens(words).wf(),
        tokens(words).size() == words.size(),
        tokens(words).first() == match words.first() {
            Some(word) => Some(word@),
            None => None,
        },
{
    lemma_word_views(words.items);
}

/// Reads one word with `parse_one`. On an empty window and on a word that
/// `parse_one` does not take the parse fails with one error that names
/// `expected`, and the window is untouched.
pub fn parse_helper<'l, T, F: Fn(&Word) -> Option<T>>(
    words: VecWindow<'l, Word>,
    expected: &str,
    parse_one: F,
) -> (res: ParseResult<'l, T>)
    requires
        words@.size() > 0 ==> call_requires(parse_one, (&words@.items[words@.start],)),
    ensures
        match tokens(words@).first() {
            None => res.0 is None && res.1@ == words@ && error_views(res.2@) == seq![
                leaf_error(expected@, None),
            ],
            Some(token) => {
                &&& token == words@.items[words@.start]@
                &&& call_ensures(parse_one, (&words@.items[words@.start],), res.0)
                &&& res.0 is Some ==> res.1@ == words@.skip(1) && error_views(res.2@)
                    == Seq::<ParseErrorView>::empty()
                &&& res.0 is None ==> res.1@ == words@ && error_views(res.2@) == seq![
                    leaf_error(expected@, Some(token)),
                ]
            },
        },
{
    words.well_formed();
    proof {
        lemma_first_token(words@);
    }
    let Some(word) = words.first() else {
        return ParseResult(None, words, single_error(expected, None));
    };
    if let Some(res) = parse_one(word) {
        ParseResult(Some(res), words.skip(1), no_errors())
    } else {
        let errors = single_error(expected, Some(word.clone()));
        ParseResult(None, words, errors)
    }
}

/// Two texts hold the same characters.
pub fn same_text(a: &str, b: &str) -> (res: bool)
    ensures
        res == (a@ == b@),
{
    let left = chars_of(a);
    let right = chars_of(b);
    if left.len() != right.len() {
        return false;
    }
    let mut i: usize = 0;
    while i < left.len()
        invariant
            i <= left@.len(),
            left@ == a@,
            right@ == b@,
            left@.len() == right@.len(),
            forall|k: int| 0 <= k < i ==> left@[k] == right@[k],
        decreases left.len() - i,
    {
        if left[i] != right[i] {
            assert(a@[i as int] != b@[i as int]);
            return false;
        }
        i += 1;
    }
    assert(left@ =~= right@);
    true
}

/// What the literal-text parser reads in a word.
pub open spec fn read_text(expected: Seq<char>) -> spec_fn(WordView) -> Option<()> {
    |word: WordView|
        if word.is_text(expected) {
            Some(())
        } else {
            None
        }
}

/// Takes the first word if it is the literal `text`; else fails with one
/// error that names `text`, and leaves the window untouched.
pub fn parse_text<'l>(words: VecWindow<'l, Word>, text: &str) -> (res: ParseResult<'l, ()>)
    ensures
        res.0 is Some <==> spec_leaf(tokens(words@), text@, read_text(text@)).value is Some,
        tokens(res.1@) == spec_leaf(tokens(words@), text@, read_text(text@)).rest,
        error_views(res.2@) == spec_leaf(tokens(words@), text@, read_text(text@)).errors,
{
    let read = |word: &Word| -> (r: Option<()>)
        ensures
            r == read_text(text@)(word@),
        {
            match word.get_word() {
                Some(found) => if same_text(found, text) {
                    Some(())
                } else {
                    None
                },
                None => None,
            }
        };
    parse_helper(words, text, read)
}

impl Parser<Word> for Word {
    type Value = WordView;

    open spec fn value_of(out: Word) -> WordView {
        out@
    }

    /// Takes the first word, whatever it is. On an empty window there is no
    /// value, and no error either.
    open spec fn spec_parse(words: WindowView<WordView>) -> Parsed<WordView> {
        Parsed { value: words.first(), rest: words.skip(1), errors: Seq::empty() }
    }

    open spec fn spec_starting_keywords() -> Seq<Seq<char>> {
        Seq::empty()
    }

    fn parse<'l>(words: VecWindow<'l, Word>) -> (res: ParseResult<'l, Word>) {
        words.well_formed();
        proof {
            lemma_first_token(words@);
        }
        let first = match words.first() {
            Some(word) => Some(word.clone()),
            None => None,
        };
        ParseResult(first, words.skip(1), no_errors())
    }

    fn starting_keywords() -> (res: Vec<&'static str>) {
        Vec::new()
    }
}

/// The body of a quoted string: what stands between the first and the last
/// character of a literal of at least two characters that both are quotes.
pub open spec fn read_string(word: WordView) -> Option<Seq<char>> {
    match word.text() {
        Some(text) => if text.len() >= 2 && text.first() == '"' && text.last() == '"' {
            Some(text.subrange(1, text.len() - 1))
        } else {
            None
        },
        None => None,
    }
}

impl Parser<String> for String {
    type Value = Seq<char>;

    open spec fn value_of(out: String) -> Seq<char> {
        out@
    }

    open spec fn spec_parse(words: WindowView<WordView>) -> Parsed<Seq<char>> {
        spec_leaf(words, "<<string>>"@, |word: WordView| read_string(word))
    }

    open spec fn spec_starting_keywords() -> Seq<Seq<char>> {
        Seq::empty()
    }

    fn parse<'l>(words: VecWindow<'l, Word>) -> (res: ParseResult<'l, String>) {
        let read = |word: &Word| -> (r: Option<String>)
            ensures
                r is Some <==> read_string(word@) is Some,
                r matches Some(body) ==> read_string(word@) == Some(body@),
            {
                match word.get_word() {
                    Some(text) => {
                        let chars = chars_of(text);
                        let n = chars.len();
                        if n >= 2 && chars[0] == '"' && chars[n - 1] == '"' {
                            Some(text_of(&chars, 1, n - 1))
                        } else {
                            None
                        }
                    },
                    None => None,
                }
            };
        parse_helper(words, "<<string>>", read)
    }

    fn starting_keywords() -> (res: Vec<&'static str>) {
        Vec::new()
    }
}

/// The character is one of the ten decimal digits.
pub open spec fn is_digit(ch: char) -> bool {
    '0' <= ch <= '9'
}

/// The number that a run of decimal digits writes.
pub open spec fn digits_value(digits: Seq<char>) -> int
    decreases digits.len(),
{
    if digits.len() == 0 {
        0
    } else {
        digits_value(digits.drop_last()) * 10 + (digits.last() as int - '0' as int)
    }
}

/// Every character is a decimal digit.
pub open spec fn all_digits(digits: Seq<char>) -> bool {
    forall|i: int| 0 <= i < digits.len() ==> is_digit(#[trigger] digits[i])
}

/// The text starts with a sign.
pub open spec fn has_sign(text: Seq<char>) -> bool {
    text.len() > 0 && (text[0] == '-' || text[0] == '+')
}

/// The text without its sign, if it has one.
pub open spec fn unsigned_part(text: Seq<char>) -> Seq<char> {
    if has_sign(text) {
        text.subrange(1, text.len() as int)
    } else {
        text
    }
}

/// The integer that a text writes: an optional sign `+` or `-`, then one or
/// more decimal digits and nothing else, with a value that fits in 64 bits.
pub open spec fn integer_of(text: Seq<char>) -> Option<i64> {
    let digits = unsigned_part(text);
    let value = if has_sign(text) && text[0] == '-' {
        -digits_value(digits)
    } else {
        digits_value(digits)
    };
    if digits.len() > 0 && all_digits(digits) && i64::MIN <= value <= i64::MAX {
        Some(value as i64)
    } else {
        None
    }
}

proof fn lemma_digits_nonnegative(digits: Seq<char>)
    requires
        all_digits(digits),
    ensures
        0 <= digits_value(digits),
    decreases digits.len(),
{
    if digits.len() > 0 {
        lemma_digits_nonnegative(digits.drop_last());
    }
}

/// Reads a signed decimal integer.
pub fn parse_integer(text: &str) -> (res: Option<i64>)
    ensures
        res == integer_of(text@),
{
    let chars = chars_of(text);
    let n = chars.len();
    let negative = n > 0 && chars[0] == '-';
    let first: usize = if n > 0 && (chars[0] == '-' || chars[0] == '+') {
        1
    } else {
        0
    };
    if first >= n {
        return None;
    }
    let ghost digits = chars@.subrange(first as int, n as int);
    assert(has_sign(text@) == (first == 1));
    assert(digits =~= unsigned_part(text@));
    let mut value: i64 = 0;
    let mut fits = true;
    let mut i: usize = first;
    assert(digits.take(0) =~= Seq::<char>::empty());
    while i < n
        invariant
            first <= i <= n,
            n == chars@.len(),
            chars@ == text@,
            digits == chars@.subrange(first as int, n as int),
            digits == unsigned_part(text@),
            negative == (has_sign(text@) && text@[0] == '-'),
            all_digits(digits.take(i - first)),
            fits ==> value == if negative {
                -digits_value(digits.take(i - first))
            } else {
                digits_value(digits.take(i - first))
            },
            !fits ==> if negative {
                -digits_value(digits.take(i - first)) < i64::MIN
            } else {
                digits_value(digits.take(i - first)) > i64::MAX
            },
        decreases n - i,
    {
        let ch = chars[i];
        if !('0' <= ch && ch <= '9') {
            assert(!is_digit(digits[i - first]));
            return None;
        }
        let digit: i64 = (ch as u32 - '0' as u32) as i64;
        proof {
            assert(digits.take(i - first + 1).drop_last() =~= digits.take(i - first));
            assert(digits.take(i - first + 1).last() == ch);
            lemma_digits_nonnegative(digits.take(i - first));
            assert forall|k: int| 0 <= k < i - first + 1 implies is_digit(
                #[trigger] digits.take(i - first + 1)[k],
            ) by {
                if k < i - first {
                    assert(is_digit(digits.take(i - first)[k]));
                }
            }
        }
        if fits {
            if negative {
                if value < (i64::MIN + digit) / 10 {
                    fits = false;
                } else {
                    value = value * 10 - digit;
                }
            } else {
                if value > (i64::MAX - digit) / 10 {
                    fits = false;
                } else {
                    value = value * 10 + digit;
                }
            }
        }
        i += 1;
    }
    proof {
        assert(digits.take(n - first) =~= digits);
    }
    if fits {
        Some(value)
    } else {
        None
    }
}

/// What the integer parser reads in a word.
pub open spec fn read_integer(word: WordView) -> Option<i64> {
    match word.text() {
        Some(text) => integer_of(text),
        None => None,
    }
}

impl Parser<i64> for i64 {
    type Value = i64;

    open spec fn value_of(out: i64) -> i64 {
        out
    }

    open spec fn spec_parse(words: WindowView<WordView>) -> Parsed<i64> {
        spec_leaf(words, "<<integer>>"@, |word: WordView| read_integer(word))
    }

    open spec fn spec_starting_keywords() -> Seq<Seq<char>> {
        Seq::empty()
    }

    fn parse<'l>(words: VecWindow<'l, Word>) -> (res: ParseResult<'l, i64>) {
        let read = |word: &Word| -> (r: Option<i64>)
            ensures
                r == read_integer(word@),
            {
                match word.get_word() {
                    Some(text) => parse_integer(text),
                    None => None,
                }
            };
        parse_helper(words, "<<integer>>", read)
    }

    fn starting_keywords() -> (res: Vec<&'static str>) {
        Vec::new()
    }
}

/// What the boolean parser reads in a word: `true` or `false`.
pub open spec fn read_bool(word: WordView) -> Option<bool> {
    if word.is_text("true"@) {
        Some(true)
    } else if word.is_text("false"@) {
        Some(false)
    } else {
        None
    }
}

impl Parser<bool> for bool {
    type Value = bool;

    open spec fn value_of(out: bool) -> bool {
        out
    }

    open spec fn spec_parse(words: WindowView<WordView>) -> Parsed<bool> {
        spec_leaf(words, "<<boolean>>"@, |word: WordView| read_bool(word))
    }

    open spec fn spec_starting_keywords() -> Seq<Seq<char>> {
        Seq::empty()
    }

    fn parse<'l>(words: VecWindow<'l, Word>) -> (res: ParseResult<'l, bool>) {
        let read = |word: &Word| -> (r: Option<bool>)
            ensures
                r == read_bool(word@),
            {
                match word.get_word() {
                    Some(text) => if same_text(text, "true") {
                        Some(true)
                    } else if same_text(text, "false") {
                        Some(false)
                    } else {
                        None
                    },
                    None => None,
                }
            };
        parse_helper(words, "<<boolean>>", read)
    }

    fn starting_keywords() -> (res: Vec<&'static str>) {
        Vec::new()
    }
}

/// The mathematical value of a name with its place.
pub ghost struct NameView {
    pub text: Seq<char>,
    pub line_number: nat,
    pub column_from: nat,
    pub column_to: nat,
}

/// The name that a literal word gives.
pub open spec fn name_of(word: WordView) -> NameView {
    NameView {
        text: word.value->Word_0,
        line_number: word.line,
        column_from: word.column_from,
        column_to: word.column_to,
    }
}

/// The glyphs have the shape of a type name: the first is uppercase and all
/// are alphanumeric.
pub open spec fn is_type_name(glyphs: Seq<Glyph>) -> bool {
    &&& glyphs.len() > 0
    &&& glyphs[0].uppercase
    &&& forall|i: int| 0 <= i < glyphs.len() ==> (#[trigger] glyphs[i]).alphanumeric
}

/// A glyph that may stand in a value name: lowercase, a digit, or an
/// underscore.
pub open spec fn value_name_glyph(glyph: Glyph) -> bool {
    glyph.lowercase || glyph.ch == '_' || glyph.numeric
}

/// The glyphs have the shape of a value name: the first is lowercase and all
/// are lowercase, digits or underscores.
pub open spec fn is_value_name(glyphs: Seq<Glyph>) -> bool {
    &&& glyphs.len() > 0
    &&& glyphs[0].lowercase
    &&& forall|i: int| 0 <= i < glyphs.len() ==> value_name_glyph(#[trigger] glyphs[i])
}

/// What the type-name parser reads in a word.
pub open spec fn read_type_name(word: WordView) -> Option<NameView> {
    match word.text() {
        Some(text) => if is_type_name(glyphs_of(text)) {
            Some(name_of(word))
        } else {
            None
        },
        None => None,
    }
}

/// What the value-name parser reads in a word.
pub open spec fn read_value_name(word: WordView) -> Option<NameView> {
    match word.text() {
        Some(text) => if is_value_name(glyphs_of(text)) {
            Some(name_of(word))
        } else {
            None
        },
        None => None,
    }
}

/// Whether the glyphs have the shape of a type name.
pub fn type_name_shape(glyphs: &Vec<Glyph>) -> (res: bool)
    ensures
        res == is_type_name(glyphs@),
{
    if glyphs.len() == 0 || !glyphs[0].uppercase {
        return false;
    }
    let mut i: usize = 0;
    while i < glyphs.len()
        invariant
            i <= glyphs@.len(),
            forall|k: int| 0 <= k < i ==> (#[trigger] glyphs@[k]).alphanumeric,
        decreases glyphs.len() - i,
    {
        if !glyphs[i].alphanumeric {
            return false;
        }
        i += 1;
    }
    true
}

/// Whether the glyphs have the shape of a value name.
pub fn value_name_shape(glyphs: &Vec<Glyph>) -> (res: bool)
    ensures
        res == is_value_name(glyphs@),
{
    if glyphs.len() == 0 || !glyphs[0].lowercase {
        return false;
    }
    let mut i: usize = 0;
    while i < glyphs.len()
        invariant
            i <= glyphs@.len(),
            forall|k: int| 0 <= k < i ==> value_name_glyph(#[trigger] glyphs@[k]),
        decreases glyphs.len() - i,
    {
        let glyph = &glyphs[i];
        if !(glyph.lowercase || glyph.ch == '_' || glyph.numeric) {
            assert(!value_name_glyph(glyphs@[i as int]));
            return false;
        }
        i += 1;
    }
    true
}

/// The name of a type: a word that starts with an uppercase character and
/// holds alphanumeric characters only.
#[derive(Clone, Debug, PartialEq, Eq)]
pub struct TypeName {
    pub text: String,
    pub line_number: usize,
    pub column_from: usize,
    pub column_to: usize,
}

impl View for TypeName {
    type V = NameView;

    open spec fn view(&self) -> NameView {
        NameView {
            text: self.text@,
            line_number: self.line_number as nat,
            column_from: self.column_from as nat,
            column_to: self.column_to as nat,
        }
    }
}

impl Parser<TypeName> for TypeName {
    type Value = NameView;

    open spec fn value_of(out: TypeName) -> NameView {
        out@
    }

    open spec fn spec_parse(words: WindowView<WordView>) -> Parsed<NameView> {
        spec_leaf(words, "<<TypeName>>"@, |word: WordView| read_type_name(word))
    }

    open spec fn spec_starting_keywords() -> Seq<Seq<char>> {
        Seq::empty()
    }

    fn parse<'l>(words: VecWindow<'l, Word>) -> (res: ParseResult<'l, TypeName>) {
        let read = |word: &Word| -> (r: Option<TypeName>)
            ensures
                r is Some <==> read_type_name(word@) is Some,
                r matches Some(name) ==> read_type_name(word@) == Some(name@),
            {
                match word.get_word() {
                    Some(text) => if type_name_shape(&classify_text(text)) {
                        Some(
                            TypeName {
                                text: text.to_owned(),
                                line_number: word.line,
                                column_from: word.column_from,
                                column_to: word.column_to,
                            },
                        )
                    } else {
                        None
                    },
                    None => None,
                }
            };
        parse_helper(words, "<<TypeName>>", read)
    }

    fn starting_keywords() -> (res: Vec<&'static str>) {
        Vec::new()
    }
}

/// The name of a value: a word that starts with a lowercase character and
/// holds lowercase characters, digits and underscores only.
#[derive(Clone, Debug, PartialEq, Eq)]
pub struct ValueName {
    pub text: String,
    pub line_number: usize,
    pub column_from: usize,
    pub column_to: usize,
}

impl View for ValueName {
    type V = NameView;

    open spec fn view(&self) -> NameView {
        NameView {
            text: self.text@,
            line_number: self.line_number as nat,
            column_from: self.column_from as nat,
            column_to: self.column_to as nat,
        }
    }
}

impl Parser<ValueName> for ValueName {
    type Value = NameView;

    open spec fn value_of(out: ValueName) -> NameView {
        out@
    }

    open spec fn spec_parse(words: WindowView<WordView>) -> Parsed<NameView> {
        spec_leaf(words, "<<ValueName>>"@, |word: WordView| read_value_name(word))
    }

    open spec fn spec_starting_keywords() -> Seq<Seq<char>> {
        Seq::empty()
    }

    fn parse<'l>(words: VecWindow<'l, Word>) -> (res: ParseResult<'l, ValueName>) {
        let read = |word: &Word| -> (r: Option<ValueName>)
            ensures
                r is Some <==> read_value_name(word@) is Some,
                r matches Some(name) ==> read_value_name(word@) == Some(name@),
            {
                match word.get_word() {
                    Some(text) => if value_name_shape(&classify_text(text)) {
                        Some(
                            ValueName {
                                text: text.to_owned(),
                                line_number: word.line,
                                column_from: word.column_from,
                                column_to: word.column_to,
                            },
                        )
                    } else {
                        None
                    },
                    None => None,
                }
            };
        parse_helper(words, "<<ValueName>>", read)
    }

    fn starting_keywords() -> (res: Vec<&'static str>) {
        Vec::new()
    }
}

} // verus!
