//! The tokenizer: from source text to a tree of words.
//!
//! The text is read line by line and token by token, and the tokens that are
//! a single bracket character fold the tokens between them into groups.
//! Nothing is ever rejected here: a quote or a bracket that is never closed
//! ends where the input ends, and a closing bracket closes whatever is open.
use vstd::prelude::*;
use crate::nesting::{all_resolved, grouped, lemma_grouped_resolved, nest};
use crate::scan::{
    code_line, comment_start, lemma_text_words_literal, line_at, line_tokens, line_words,
    text_words,
};
use crate::text::{chars_of, classify_all, glyphs_of};
use crate::words::{lemma_word_views, word_views, BracketPair, Word, WordView};

verus! {

/// The token tree of a text.
pub open spec fn tokenize(brackets: Seq<BracketPair>, text: Seq<char>) -> Seq<WordView> {
    grouped(brackets, text_words(brackets, text, 0, 0))
}

/// Splits the text into words and folds the words between matching bracket
/// characters into groups.
///
/// A closing bracket closes the open groups up to the nearest one of its own
/// kind, whatever kinds lie between, and all of them if there is none; groups
/// still open at the end of the text are closed there.
pub fn split_words(text: &str, brackets: Vec<BracketPair>) -> (res: Vec<Word>)
    ensures
        word_views(res@) == tokenize(brackets@, text@),
{
    let ghost pairs = brackets@;
    let ghost all = text_words(pairs, text@, 0, 0);
    let chars = chars_of(text);
    let mut words: Vec<Word> = Vec::new();
    let mut at: usize = 0;
    let mut line_no: usize = 0;
    proof {
        lemma_word_views(words@);
        assert(all =~= word_views(words@) + all);
    }
    while at < chars.len()
        invariant
            chars@ == text@,
            line_no <= at <= chars@.len(),
            brackets@ == pairs,
            all == word_views(words@) + text_words(pairs, text@, at as int, line_no as nat),
        decreases chars@.len() - at,
    {
        let (end, next) = line_at(&chars, at);
        let ghost whole = chars@.subrange(at as int, end as int);
        let mut cut: usize = at;
        while cut < end && !(chars[cut] == '/' && cut + 1 < end && chars[cut + 1] == '/')
            invariant
                at <= cut <= end <= chars@.len(),
                whole == chars@.subrange(at as int, end as int),
                comment_start(whole, 0) == comment_start(whole, cut - at),
            decreases end - cut,
        {
            cut += 1;
        }
        let line = classify_all(&chars, at, cut);
        proof {
            assert(chars@.subrange(at as int, cut as int) =~= code_line(text@, at as int));
        }
        let mut found = line_tokens(line_no, &line, &brackets);
        proof {
            let so_far = words@;
            let here = found@;
            lemma_word_views(so_far);
            lemma_word_views(here);
            lemma_word_views(so_far + here);
            assert(word_views(so_far + here) =~= word_views(so_far) + word_views(here));
        }
        words.append(&mut found);
        at = next;
        line_no += 1;
        assert(all =~= word_views(words@) + text_words(pairs, text@, at as int, line_no as nat));
    }
    assert(all =~= word_views(words@));
    nest(&words, brackets)
}

/// In the token tree of any text no literal word, at any depth, is a bracket
/// character of one of the pairs: the tokenizer has turned every one of them
/// into the edge of a group, or dropped it.
pub proof fn lemma_tokenize_resolved(brackets: Seq<BracketPair>, text: Seq<char>)
    ensures
        all_resolved(tokenize(brackets, text), brackets),
{
    lemma_text_words_literal(brackets, text, 0, 0);
    lemma_grouped_resolved(brackets, text_words(brackets, text, 0, 0));
}

} // verus!
