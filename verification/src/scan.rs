//! From text to tokens: how a text falls into lines, and a line into tokens.
//!
//! Everything from the first `//` of a line on is a comment. What is left
//! falls into tokens: a quoted string runs to its closing quote, any other
//! token runs as long as its characters join. A token is the run of
//! characters `line[column_from..column_to]`, counted in characters.
//!
//! What is whitespace, word-like or a digit is not decided here: a line comes
//! as glyphs, each character with its marks.
use vstd::prelude::*;
use crate::text::{glyph_text, glyphs_of, glyphs_text, Glyph};
use crate::words::{lemma_word_views, word_views, BracketPair, Word, WordValue, WordValueView, WordView};

verus! {

/// The character opens or closes one of the bracket pairs.
pub open spec fn is_bracket(brackets: Seq<BracketPair>, ch: char) -> bool {
    exists|i: int| 0 <= i < brackets.len() && (brackets[i].open == ch || brackets[i].close == ch)
}

/// Two neighbouring characters belong to the same token: a digit beside a
/// period always, and otherwise two characters that are not brackets and are
/// both word-like or both not, where an underscore goes with anything.
pub open spec fn joins(brackets: Seq<BracketPair>, last: Glyph, glyph: Glyph) -> bool {
    let number_period = (last.numeric && glyph.ch == '.') || (last.ch == '.' && glyph.numeric);
    let same_kind = last.alphanumeric == glyph.alphanumeric || glyph.ch == '_' || last.ch == '_';
    number_period || (!is_bracket(brackets, last.ch) && !is_bracket(brackets, glyph.ch)
        && same_kind)
}

/// The first position from `at` on that holds no whitespace, or the length
/// of the line.
pub open spec fn token_start(line: Seq<Glyph>, at: int) -> int
    decreases line.len() - at,
{
    if at < 0 || at >= line.len() {
        line.len() as int
    } else if !line[at].whitespace {
        at
    } else {
        token_start(line, at + 1)
    }
}

/// Where a quoted token that is being read at `at` ends: behind the first
/// quote that no backslash stands in front of, or at the end of the line.
pub open spec fn quoted_end(line: Seq<Glyph>, at: int) -> int
    decreases line.len() - at,
{
    if at < 1 || at >= line.len() {
        line.len() as int
    } else if line[at].ch == '"' && line[at - 1].ch != '\\' {
        at + 1
    } else {
        quoted_end(line, at + 1)
    }
}

/// Where an unquoted token that is being read at `at` ends: in front of the
/// first whitespace or of the first character that does not join the one
/// before it, or at the end of the line.
pub open spec fn plain_end(brackets: Seq<BracketPair>, line: Seq<Glyph>, at: int) -> int
    decreases line.len() - at,
{
    if at < 1 || at >= line.len() {
        line.len() as int
    } else if line[at].whitespace || !joins(brackets, line[at - 1], line[at]) {
        at
    } else {
        plain_end(brackets, line, at + 1)
    }
}

/// Where the token that starts at `from` ends. A token that starts with a
/// quote is a quoted one.
pub open spec fn token_end(brackets: Seq<BracketPair>, line: Seq<Glyph>, from: int) -> int {
    if 0 <= from < line.len() && line[from].ch == '"' {
        quoted_end(line, from + 1)
    } else {
        plain_end(brackets, line, from + 1)
    }
}

/// A literal token with its place.
pub open spec fn text_word(
    text: Seq<char>,
    line: nat,
    column_from: nat,
    column_to: nat,
) -> WordView {
    WordView { value: WordValueView::Word(text), line, column_from, column_to }
}

/// The tokens of a line from position `at` on, before any grouping. Each is
/// the run of characters `line[column_from..column_to]`.
pub open spec fn line_words(
    brackets: Seq<BracketPair>,
    line_no: nat,
    line: Seq<Glyph>,
    at: int,
) -> Seq<WordView>
    decreases line.len() - at,
{
    let from = token_start(line, at);
    if at < 0 || from >= line.len() {
        Seq::empty()
    } else {
        let to = token_end(brackets, line, from);
        proof {
            lemma_token_start(line, at);
            lemma_token_end(brackets, line, from);
        }
        seq![
            text_word(glyph_text(line.subrange(from, to)), line_no, from as nat, to as nat),
        ] + line_words(
            brackets,
            line_no,
            line,
            to,
        )
    }
}

/// The first position from `at` on where two slashes stand, or the length of
/// the line.
pub open spec fn comment_start(line: Seq<char>, at: int) -> int
    decreases line.len() - at,
{
    if at < 0 || at >= line.len() {
        line.len() as int
    } else if line[at] == '/' && at + 1 < line.len() && line[at + 1] == '/' {
        at
    } else {
        comment_start(line, at + 1)
    }
}

/// The first position from `at` on that holds a line feed, or the length of
/// the text.
pub open spec fn line_end(text: Seq<char>, at: int) -> int
    decreases text.len() - at,
{
    if at < 0 || at >= text.len() {
        text.len() as int
    } else if text[at] == '\n' {
        at
    } else {
        line_end(text, at + 1)
    }
}

/// The line that starts at `at`, without its line ending: a line feed, or a
/// carriage return and a line feed.
pub open spec fn text_line(text: Seq<char>, at: int) -> Seq<char> {
    let eol = line_end(text, at);
    let end = if at < eol < text.len() && text[eol - 1] == '\r' {
        eol - 1
    } else {
        eol
    };
    text.subrange(at, end)
}

/// Where the line behind the one that starts at `at` starts.
pub open spec fn next_line(text: Seq<char>, at: int) -> int {
    let eol = line_end(text, at);
    if eol < text.len() {
        eol + 1
    } else {
        eol
    }
}

/// The line that starts at `at`, without its line ending and without its
/// comment.
pub open spec fn code_line(text: Seq<char>, at: int) -> Seq<char> {
    let line = text_line(text, at);
    line.subrange(0, comment_start(line, 0))
}

/// The tokens of the text from the line that starts at `at` on, before any
/// grouping. `line_no` is the number of that line; every line counts, also
/// one that holds no token.
pub open spec fn text_words(
    brackets: Seq<BracketPair>,
    text: Seq<char>,
    at: int,
    line_no: nat,
) -> Seq<WordView>
    decreases text.len() - at,
{
    if at < 0 || at >= text.len() {
        Seq::empty()
    } else {
        proof {
            lemma_line_end(text, at);
        }
        line_words(brackets, line_no, glyphs_of(code_line(text, at)), 0) + text_words(
            brackets,
            text,
            next_line(text, at),
            line_no + 1,
        )
    }
}

/// The next token starts at or behind `at`, on a character that is no
/// whitespace, and only whitespace lies in between.
pub proof fn lemma_token_start(line: Seq<Glyph>, at: int)
    requires
        0 <= at,
    ensures
        at <= token_start(line, at) || token_start(line, at) == line.len(),
        token_start(line, at) <= line.len(),
        token_start(line, at) < line.len() ==> !line[token_start(line, at)].whitespace,
        forall|k: int| at <= k < token_start(line, at) ==> (#[trigger] line[k]).whitespace,
    decreases line.len() - at,
{
    if at < line.len() && line[at].whitespace {
        lemma_token_start(line, at + 1);
    }
}

/// A quoted token ends at or behind the place where it is being read, inside
/// the line.
pub proof fn lemma_quoted_end(line: Seq<Glyph>, at: int)
    requires
        1 <= at <= line.len(),
    ensures
        at <= quoted_end(line, at) <= line.len(),
    decreases line.len() - at,
{
    if at < line.len() && !(line[at].ch == '"' && line[at - 1].ch != '\\') {
        lemma_quoted_end(line, at + 1);
    }
}

/// An unquoted token ends at or behind the place where it is being read,
/// inside the line.
pub proof fn lemma_plain_end(brackets: Seq<BracketPair>, line: Seq<Glyph>, at: int)
    requires
        1 <= at <= line.len(),
    ensures
        at <= plain_end(brackets, line, at) <= line.len(),
    decreases line.len() - at,
{
    if at < line.len() && !(line[at].whitespace || !joins(brackets, line[at - 1], line[at])) {
        lemma_plain_end(brackets, line, at + 1);
    }
}

/// A token is never empty and ends inside the line.
pub proof fn lemma_token_end(brackets: Seq<BracketPair>, line: Seq<Glyph>, from: int)
    requires
        0 <= from < line.len(),
    ensures
        from < token_end(brackets, line, from) <= line.len(),
{
    lemma_quoted_end(line, from + 1);
    lemma_plain_end(brackets, line, from + 1);
}

/// A line ends at or behind the place where it starts, inside the text.
pub proof fn lemma_line_end(text: Seq<char>, at: int)
    requires
        0 <= at <= text.len(),
    ensures
        at <= line_end(text, at) <= text.len(),
    decreases text.len() - at,
{
    if at < text.len() && text[at] != '\n' {
        lemma_line_end(text, at + 1);
    }
}

/// The tokens of a line are all literal words.
pub proof fn lemma_line_words_literal(
    brackets: Seq<BracketPair>,
    line_no: nat,
    line: Seq<Glyph>,
    at: int,
)
    ensures
        forall|i: int|
            0 <= i < line_words(brackets, line_no, line, at).len() ==> (#[trigger] line_words(
                brackets,
                line_no,
                line,
                at,
            )[i]).value is Word,
    decreases line.len() - at,
{
    let from = token_start(line, at);
    if !(at < 0 || from >= line.len()) {
        lemma_token_start(line, at);
        lemma_token_end(brackets, line, from);
        lemma_line_words_literal(brackets, line_no, line, token_end(brackets, line, from));
    }
}

/// The tokens of a text are all literal words.
pub proof fn lemma_text_words_literal(
    brackets: Seq<BracketPair>,
    text: Seq<char>,
    at: int,
    line_no: nat,
)
    ensures
        forall|i: int|
            0 <= i < text_words(brackets, text, at, line_no).len() ==> (#[trigger] text_words(
                brackets,
                text,
                at,
                line_no,
            )[i]).value is Word,
    decreases text.len() - at,
{
    if !(at < 0 || at >= text.len()) {
        lemma_line_end(text, at);
        lemma_line_words_literal(brackets, line_no, glyphs_of(code_line(text, at)), 0);
        lemma_text_words_literal(brackets, text, next_line(text, at), line_no + 1);
    }
}

/// Where the line that starts at `at` ends, without its line ending, and
/// where the line behind it starts.
pub(crate) fn line_at(chars: &Vec<char>, at: usize) -> (res: (usize, usize))
    requires
        at < chars@.len(),
    ensures
        at <= res.0 <= res.1 <= chars@.len(),
        at < res.1,
        chars@.subrange(at as int, res.0 as int) == text_line(chars@, at as int),
        res.1 == next_line(chars@, at as int),
{
    let mut eol: usize = at;
    while eol < chars.len() && chars[eol] != '\n'
        invariant
            at <= eol <= chars@.len(),
            line_end(chars@, at as int) == line_end(chars@, eol as int),
        decreases chars@.len() - eol,
    {
        eol += 1;
    }
    let end = if at < eol && eol < chars.len() && chars[eol - 1] == '\r' {
        eol - 1
    } else {
        eol
    };
    let next = if eol < chars.len() {
        eol + 1
    } else {
        eol
    };
    (end, next)
}

/// The character opens or closes one of the bracket pairs.
fn is_bracket_char(brackets: &Vec<BracketPair>, ch: char) -> (res: bool)
    ensures
        res == is_bracket(brackets@, ch),
{
    let mut i: usize = 0;
    while i < brackets.len()
        invariant
            i <= brackets@.len(),
            forall|k: int| 0 <= k < i ==> brackets@[k].open != ch && brackets@[k].close != ch,
        decreases brackets.len() - i,
    {
        if brackets[i].open == ch || brackets[i].close == ch {
            return true;
        }
        i += 1;
    }
    false
}

/// Two neighbouring characters belong to the same token.
fn joined(brackets: &Vec<BracketPair>, last: &Glyph, glyph: &Glyph) -> (res: bool)
    ensures
        res == joins(brackets@, *last, *glyph),
{
    let number_period = (last.numeric && glyph.ch == '.') || (last.ch == '.' && glyph.numeric);
    if number_period {
        return true;
    }
    if is_bracket_char(brackets, last.ch) || is_bracket_char(brackets, glyph.ch) {
        return false;
    }
    last.alphanumeric == glyph.alphanumeric || glyph.ch == '_' || last.ch == '_'
}

/// The tokens of one line, before any grouping: each a literal word with the
/// number of the line and the columns at which it starts and ends.
pub fn line_tokens(line_no: usize, line: &Vec<Glyph>, brackets: &Vec<BracketPair>) -> (res: Vec<
    Word,
>)
    ensures
        word_views(res@) == line_words(brackets@, line_no as nat, line@, 0),
{
    let ghost pairs = brackets@;
    let ghost all = line_words(pairs, line_no as nat, line@, 0);
    let mut res: Vec<Word> = Vec::new();
    let mut at: usize = 0;
    proof {
        lemma_word_views(res@);
        assert(all =~= word_views(res@) + all);
    }
    while at < line.len()
        invariant
            at <= line@.len(),
            pairs == brackets@,
            all == word_views(res@) + line_words(pairs, line_no as nat, line@, at as int),
        ensures
            all == word_views(res@),
        decreases line@.len() - at,
    {
        let mut from: usize = at;
        while from < line.len() && line[from].whitespace
            invariant
                at <= from <= line@.len(),
                token_start(line@, at as int) == token_start(line@, from as int),
            decreases line@.len() - from,
        {
            from += 1;
        }
        if from >= line.len() {
            assert(all =~= word_views(res@));
            break ;
        }
        let mut to: usize = from + 1;
        if line[from].ch == '"' {
            while to < line.len() && !(line[to].ch == '"' && line[to - 1].ch != '\\')
                invariant
                    from < to <= line@.len(),
                    quoted_end(line@, from + 1) == quoted_end(line@, to as int),
                decreases line@.len() - to,
            {
                to += 1;
            }
            if to < line.len() {
                to += 1;
            }
        } else {
            while to < line.len() && !line[to].whitespace && joined(
                brackets,
                &line[to - 1],
                &line[to],
            )
                invariant
                    from < to <= line@.len(),
                    plain_end(brackets@, line@, from + 1) == plain_end(
                        brackets@,
                        line@,
                        to as int,
                    ),
                decreases line@.len() - to,
            {
                to += 1;
            }
        }
        assert(to == token_end(pairs, line@, from as int));
        let text = glyphs_text(line, from, to);
        let word = Word { value: WordValue::Word(text), line: line_no, column_from: from, column_to: to };
        proof {
            let so_far = res@;
            lemma_word_views(so_far);
            lemma_word_views(so_far.push(word));
            assert(word@ == text_word(text@, line_no as nat, from as nat, to as nat));
            assert(word_views(so_far.push(word)) =~= word_views(so_far).push(word@));
            assert(all =~= word_views(so_far).push(word@) + line_words(
                pairs,
                line_no as nat,
                line@,
                to as int,
            ));
        }
        res.push(word);
        at = to;
    }
    proof {
        if at >= line@.len() {
            assert(all =~= word_views(res@));
        }
    }
    res
}

} // verus!
