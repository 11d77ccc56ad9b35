//! The words of a token tree stand in the order of their positions.
//!
//! This is what lets the position of an error stand for how much of the
//! input a parser had read when it met the error: a word further on in a
//! window sits at a later position.
use vstd::prelude::*;
use crate::ambiguity::{
    branch_depth, flatten_branched, lemma_deeper_branch_wins, marked_unlikely, pos_before,
};
use crate::nesting::{find_pair, group_word, grouped, FrameView, Nesting};
use crate::scan::{
    code_line, lemma_line_end, lemma_token_end, lemma_token_start, line_words, next_line,
    text_words, token_end, token_start,
};
use crate::text::{glyphs_of, Glyph};
use crate::tokenizer::tokenize;
use crate::result::ParseErrorView;
use crate::words::{BracketPair, WordValueView, WordView};

verus! {

/// Every word sits at a later position than the words before it.
pub open spec fn ascending(words: Seq<WordView>) -> bool {
    forall|i: int, j: int|
        0 <= i < j < words.len() ==> pos_before(
            (#[trigger] words[i]).pos(),
            (#[trigger] words[j]).pos(),
        )
}

/// Every word sits before the position `p`.
pub open spec fn all_before(words: Seq<WordView>, p: (nat, nat)) -> bool {
    forall|i: int| 0 <= i < words.len() ==> pos_before((#[trigger] words[i]).pos(), p)
}

/// Every word sits behind the position `p`.
pub open spec fn all_behind(words: Seq<WordView>, p: (nat, nat)) -> bool {
    forall|i: int| 0 <= i < words.len() ==> pos_before(p, (#[trigger] words[i]).pos())
}

/// In the tree of the word, the words of every group are ascending and sit
/// behind the place where the group opens.
pub open spec fn in_reading_order(word: WordView) -> bool
    decreases word,
{
    match word.value {
        WordValueView::Word(_) => true,
        WordValueView::Brackets { inner, .. } => {
            &&& ascending(inner)
            &&& all_behind(inner, word.pos())
            &&& forall|i: int| 0 <= i < inner.len() ==> in_reading_order(#[trigger] inner[i])
        },
    }
}

/// The words are ascending, and so are the words of every group among them,
/// at any depth.
pub open spec fn all_in_reading_order(words: Seq<WordView>) -> bool {
    &&& ascending(words)
    &&& forall|i: int| 0 <= i < words.len() ==> in_reading_order(#[trigger] words[i])
}

/// The place where an open group was opened.
pub open spec fn frame_pos(frame: FrameView) -> (nat, nat) {
    (frame.line, frame.column_from)
}

/// All that has been taken in stands in reading order: the words of the top
/// level and of every open group, and each open group behind everything
/// that was taken in before it was opened.
pub open spec fn state_in_order(state: Nesting) -> bool {
    &&& all_in_reading_order(state.root)
    &&& forall|k: int|
        0 <= k < state.stack.len() ==> {
            &&& all_in_reading_order((#[trigger] state.stack[k]).inner)
            &&& all_behind(state.stack[k].inner, frame_pos(state.stack[k]))
            &&& all_before(state.root, frame_pos(state.stack[k]))
        }
    &&& forall|k: int, m: int|
        0 <= k < m < state.stack.len() ==> {
            &&& pos_before(
                frame_pos(#[trigger] state.stack[k]),
                frame_pos(#[trigger] state.stack[m]),
            )
            &&& all_before(state.stack[k].inner, frame_pos(state.stack[m]))
        }
}

/// All that has been taken in sits before the position `p`.
pub open spec fn state_before(state: Nesting, p: (nat, nat)) -> bool {
    &&& all_before(state.root, p)
    &&& forall|k: int|
        0 <= k < state.stack.len() ==> {
            &&& pos_before(frame_pos(#[trigger] state.stack[k]), p)
            &&& all_before(state.stack[k].inner, p)
        }
}

proof fn lemma_state_before_later(state: Nesting, p: (nat, nat), q: (nat, nat))
    requires
        state_before(state, p),
        pos_before(p, q),
    ensures
        state_before(state, q),
{
    assert forall|k: int| 0 <= k < state.stack.len() implies {
        &&& pos_before(frame_pos(#[trigger] state.stack[k]), q)
        &&& all_before(state.stack[k].inner, q)
    } by {
        assert(pos_before(frame_pos(state.stack[k]), p));
        assert(all_before(state.stack[k].inner, p));
    }
}

proof fn lemma_append_in_order(state: Nesting, word: WordView)
    requires
        state_in_order(state),
        state_before(state, word.pos()),
        in_reading_order(word),
    ensures
        state_in_order(state.append(word)),
        forall|q: (nat, nat)|
            pos_before(word.pos(), q) ==> #[trigger] state_before(state.append(word), q),
{
    let after = state.append(word);
    if state.stack.len() == 0 {
        assert(after.stack =~= state.stack);
        assert(all_in_reading_order(after.root));
    } else {
        let last = state.stack.len() - 1;
        let top = state.stack[last];
        assert(all_in_reading_order(top.inner));
        assert(all_before(top.inner, word.pos()));
        assert(all_in_reading_order(after.stack[last].inner));
        assert forall|k: int| 0 <= k < after.stack.len() implies {
            &&& all_in_reading_order((#[trigger] after.stack[k]).inner)
            &&& all_behind(after.stack[k].inner, frame_pos(after.stack[k]))
            &&& all_before(after.root, frame_pos(after.stack[k]))
        } by {
            assert(all_in_reading_order(state.stack[k].inner));
            assert(all_behind(state.stack[k].inner, frame_pos(state.stack[k])));
            assert(pos_before(frame_pos(state.stack[k]), word.pos()));
        }
        assert forall|k: int, m: int| 0 <= k < m < after.stack.len() implies {
            &&& pos_before(
                frame_pos(#[trigger] after.stack[k]),
                frame_pos(#[trigger] after.stack[m]),
            )
            &&& all_before(after.stack[k].inner, frame_pos(after.stack[m]))
        } by {
            assert(pos_before(frame_pos(state.stack[k]), frame_pos(state.stack[m])));
            assert(all_before(state.stack[k].inner, frame_pos(state.stack[m])));
        }
    }
    assert forall|q: (nat, nat)| pos_before(word.pos(), q) implies #[trigger] state_before(
        after,
        q,
    ) by {
        lemma_state_before_later(state, word.pos(), q);
        assert forall|k: int| 0 <= k < after.stack.len() implies {
            &&& pos_before(frame_pos(#[trigger] after.stack[k]), q)
            &&& all_before(after.stack[k].inner, q)
        } by {
            assert(pos_before(frame_pos(state.stack[k]), q));
            assert(all_before(state.stack[k].inner, q));
        }
    }
}

proof fn lemma_open_in_order(state: Nesting, pair: BracketPair, line: nat, column_from: nat)
    requires
        state_in_order(state),
        state_before(state, (line, column_from)),
    ensures
        state_in_order(state.open_group(pair, line, column_from)),
        forall|q: (nat, nat)|
            pos_before((line, column_from), q) ==> #[trigger] state_before(
                state.open_group(pair, line, column_from),
                q,
            ),
{
    let after = state.open_group(pair, line, column_from);
    let p = (line, column_from);
    assert forall|k: int| 0 <= k < after.stack.len() implies {
        &&& all_in_reading_order((#[trigger] after.stack[k]).inner)
        &&& all_behind(after.stack[k].inner, frame_pos(after.stack[k]))
        &&& all_before(after.root, frame_pos(after.stack[k]))
    } by {
        if k < state.stack.len() {
            assert(all_in_reading_order(state.stack[k].inner));
        }
    }
    assert forall|k: int, m: int| 0 <= k < m < after.stack.len() implies {
        &&& pos_before(frame_pos(#[trigger] after.stack[k]), frame_pos(#[trigger] after.stack[m]))
        &&& all_before(after.stack[k].inner, frame_pos(after.stack[m]))
    } by {
        if m < state.stack.len() {
            assert(pos_before(frame_pos(state.stack[k]), frame_pos(state.stack[m])));
        } else {
            assert(pos_before(frame_pos(state.stack[k]), p));
            assert(all_before(state.stack[k].inner, p));
        }
    }
    assert forall|q: (nat, nat)| pos_before(p, q) implies #[trigger] state_before(after, q) by {
        lemma_state_before_later(state, p, q);
        assert forall|k: int| 0 <= k < after.stack.len() implies {
            &&& pos_before(frame_pos(#[trigger] after.stack[k]), q)
            &&& all_before(after.stack[k].inner, q)
        } by {
            if k < state.stack.len() {
                assert(pos_before(frame_pos(state.stack[k]), q));
                assert(all_before(state.stack[k].inner, q));
            }
        }
    }
}

proof fn lemma_close_top_in_order(state: Nesting, column_to: nat, p: (nat, nat))
    requires
        state_in_order(state),
        state_before(state, p),
        state.stack.len() > 0,
    ensures
        state_in_order(state.close_top(column_to)),
        state_before(state.close_top(column_to), p),
        state.close_top(column_to).stack.len() == state.stack.len() - 1,
{
    let last = state.stack.len() - 1;
    let top = state.stack[last];
    let below = Nesting { root: state.root, stack: state.stack.drop_last() };
    let word = group_word(top, column_to);
    assert(all_in_reading_order(top.inner));
    assert(all_behind(top.inner, frame_pos(top)));
    assert(in_reading_order(word));
    assert(all_before(state.root, frame_pos(top)));
    assert forall|k: int| 0 <= k < below.stack.len() implies {
        &&& all_in_reading_order((#[trigger] below.stack[k]).inner)
        &&& all_behind(below.stack[k].inner, frame_pos(below.stack[k]))
        &&& all_before(below.root, frame_pos(below.stack[k]))
        &&& pos_before(frame_pos(below.stack[k]), word.pos())
        &&& all_before(below.stack[k].inner, word.pos())
    } by {
        assert(all_in_reading_order(state.stack[k].inner));
        assert(pos_before(frame_pos(state.stack[k]), frame_pos(state.stack[last])));
    }
    assert forall|k: int, m: int| 0 <= k < m < below.stack.len() implies {
        &&& pos_before(frame_pos(#[trigger] below.stack[k]), frame_pos(#[trigger] below.stack[m]))
        &&& all_before(below.stack[k].inner, frame_pos(below.stack[m]))
    } by {
        assert(pos_before(frame_pos(state.stack[k]), frame_pos(state.stack[m])));
    }
    assert(state_in_order(below));
    assert(state_before(below, word.pos()));
    lemma_append_in_order(below, word);
    assert(pos_before(frame_pos(state.stack[last]), p));
    assert(state_before(below.append(word), p));
}

proof fn lemma_close_until_in_order(
    state: Nesting,
    pair: BracketPair,
    column_to: nat,
    p: (nat, nat),
)
    requires
        state_in_order(state),
        state_before(state, p),
    ensures
        state_in_order(state.close_until(pair, column_to)),
        state_before(state.close_until(pair, column_to), p),
    decreases state.stack.len(),
{
    if state.stack.len() > 0 {
        lemma_close_top_in_order(state, column_to, p);
        let top = state.stack.last();
        if !(top.open == pair.open && top.close == pair.close) {
            lemma_close_until_in_order(state.close_top(column_to), pair, column_to, p);
        }
    }
}

proof fn lemma_close_all_in_order(state: Nesting, p: (nat, nat))
    requires
        state_in_order(state),
        state_before(state, p),
    ensures
        state_in_order(state.close_all()),
    decreases state.stack.len(),
{
    if state.stack.len() > 0 {
        lemma_close_top_in_order(state, 0, p);
        lemma_close_all_in_order(state.close_top(0), p);
    }
}

proof fn lemma_push_in_order(state: Nesting, brackets: Seq<BracketPair>, word: WordView)
    requires
        state_in_order(state),
        state_before(state, word.pos()),
        word.value is Word,
    ensures
        state_in_order(state.push(brackets, word)),
        forall|q: (nat, nat)|
            pos_before(word.pos(), q) ==> #[trigger] state_before(state.push(brackets, word), q),
{
    let text = word.value->Word_0;
    let after = state.push(brackets, word);
    match find_pair(brackets, text, false, 0) {
        Some(pair) => {
            lemma_open_in_order(state, pair, word.line, word.column_from);
        },
        None => match find_pair(brackets, text, true, 0) {
            Some(pair) => {
                lemma_close_until_in_order(state, pair, word.column_to, word.pos());
                assert forall|q: (nat, nat)|
                    pos_before(word.pos(), q) implies #[trigger] state_before(after, q) by {
                    lemma_state_before_later(after, word.pos(), q);
                }
            },
            None => {
                lemma_append_in_order(state, word);
            },
        },
    }
}

proof fn lemma_push_all_in_order(brackets: Seq<BracketPair>, words: Seq<WordView>)
    requires
        ascending(words),
        forall|i: int| 0 <= i < words.len() ==> (#[trigger] words[i]).value is Word,
    ensures
        state_in_order(Nesting::empty().push_all(brackets, words)),
        forall|q: (nat, nat)|
            (words.len() > 0 ==> pos_before(words.last().pos(), q)) ==> #[trigger] state_before(
                Nesting::empty().push_all(brackets, words),
                q,
            ),
    decreases words.len(),
{
    if words.len() > 0 {
        let front = words.drop_last();
        let word = words.last();
        assert forall|i: int, j: int| 0 <= i < j < front.len() implies pos_before(
            (#[trigger] front[i]).pos(),
            (#[trigger] front[j]).pos(),
        ) by {
            assert(pos_before(words[i].pos(), words[j].pos()));
        }
        assert forall|i: int| 0 <= i < front.len() implies (#[trigger] front[i]).value is Word by {
            assert(words[i].value is Word);
        }
        lemma_push_all_in_order(brackets, front);
        let before = Nesting::empty().push_all(brackets, front);
        if front.len() > 0 {
            assert(pos_before(words[front.len() - 1].pos(), words[words.len() - 1].pos()));
            assert(front.last() == words[front.len() - 1]);
        }
        assert(state_before(before, word.pos()));
        lemma_push_in_order(before, brackets, word);
    }
}

proof fn lemma_line_words_ascending(
    brackets: Seq<BracketPair>,
    line_no: nat,
    line: Seq<Glyph>,
    at: int,
)
    requires
        0 <= at,
    ensures
        ascending(line_words(brackets, line_no, line, at)),
        forall|i: int|
            0 <= i < line_words(brackets, line_no, line, at).len() ==> {
                &&& (#[trigger] line_words(brackets, line_no, line, at)[i]).value is Word
                &&& line_words(brackets, line_no, line, at)[i].line == line_no
                &&& line_words(brackets, line_no, line, at)[i].column_from >= at
            },
    decreases line.len() - at,
{
    let from = token_start(line, at);
    lemma_token_start(line, at);
    if from < line.len() {
        let to = token_end(brackets, line, from);
        lemma_token_end(brackets, line, from);
        lemma_line_words_ascending(brackets, line_no, line, to);
        let rest = line_words(brackets, line_no, line, to);
        let all = line_words(brackets, line_no, line, at);
        assert forall|i: int, j: int| 0 <= i < j < all.len() implies pos_before(
            (#[trigger] all[i]).pos(),
            (#[trigger] all[j]).pos(),
        ) by {
            assert(all[j] == rest[j - 1]);
            if i > 0 {
                assert(all[i] == rest[i - 1]);
                assert(pos_before(rest[i - 1].pos(), rest[j - 1].pos()));
            }
        }
        assert forall|i: int| 0 <= i < all.len() implies {
            &&& (#[trigger] all[i]).value is Word
            &&& all[i].line == line_no
            &&& all[i].column_from >= at
        } by {
            if i > 0 {
                assert(all[i] == rest[i - 1]);
            }
        }
    }
}

proof fn lemma_text_words_ascending(
    brackets: Seq<BracketPair>,
    text: Seq<char>,
    at: int,
    line_no: nat,
)
    ensures
        ascending(text_words(brackets, text, at, line_no)),
        forall|i: int|
            0 <= i < text_words(brackets, text, at, line_no).len() ==> {
                &&& (#[trigger] text_words(brackets, text, at, line_no)[i]).value is Word
                &&& text_words(brackets, text, at, line_no)[i].line >= line_no
            },
    decreases text.len() - at,
{
    if !(at < 0 || at >= text.len()) {
        lemma_line_end(text, at);
        let here = line_words(brackets, line_no, glyphs_of(code_line(text, at)), 0);
        let rest = text_words(brackets, text, next_line(text, at), line_no + 1);
        let all = text_words(brackets, text, at, line_no);
        lemma_line_words_ascending(brackets, line_no, glyphs_of(code_line(text, at)), 0);
        lemma_text_words_ascending(brackets, text, next_line(text, at), line_no + 1);
        assert(all == here + rest);
        assert forall|i: int, j: int| 0 <= i < j < all.len() implies pos_before(
            (#[trigger] all[i]).pos(),
            (#[trigger] all[j]).pos(),
        ) by {
            if j < here.len() {
                assert(pos_before(here[i].pos(), here[j].pos()));
            } else if i < here.len() {
                assert(all[i] == here[i]);
                assert(all[j] == rest[j - here.len()]);
            } else {
                assert(pos_before(rest[i - here.len()].pos(), rest[j - here.len()].pos()));
            }
        }
        assert forall|i: int| 0 <= i < all.len() implies {
            &&& (#[trigger] all[i]).value is Word
            &&& all[i].line >= line_no
        } by {
            if i < here.len() {
                assert(all[i] == here[i]);
            } else {
                assert(all[i] == rest[i - here.len()]);
            }
        }
    }
}

/// Tokens that are ascending fold into a tree in reading order.
pub proof fn lemma_grouped_in_reading_order(brackets: Seq<BracketPair>, words: Seq<WordView>)
    requires
        ascending(words),
        forall|i: int| 0 <= i < words.len() ==> (#[trigger] words[i]).value is Word,
    ensures
        all_in_reading_order(grouped(brackets, words)),
{
    lemma_push_all_in_order(brackets, words);
    let state = Nesting::empty().push_all(brackets, words);
    let q = if words.len() > 0 {
        (words.last().line + 1, 0nat)
    } else {
        (0nat, 0nat)
    };
    assert(state_before(state, q));
    lemma_close_all_in_order(state, q);
}

/// In the token tree of any text the words stand in the order of their
/// positions, at the top level and inside every group, and every group
/// stands in front of its words.
pub proof fn lemma_tokenize_in_reading_order(brackets: Seq<BracketPair>, text: Seq<char>)
    ensures
        all_in_reading_order(tokenize(brackets, text)),
{
    lemma_text_words_ascending(brackets, text, 0, 0);
    lemma_grouped_in_reading_order(brackets, text_words(brackets, text, 0, 0));
}

/// Of two alternatives that each failed on one word of the same ascending
/// words, the one that failed on the later word is the likely one: its error
/// stays as it is, and the error of the other is marked as unlikely.
pub proof fn lemma_later_word_wins(
    words: Seq<WordView>,
    early: int,
    late: int,
    deep: ParseErrorView,
    shallow: ParseErrorView,
)
    requires
        ascending(words),
        0 <= early < late < words.len(),
        deep.got == Some(words[late]),
        shallow.got == Some(words[early]),
    ensures
        flatten_branched(seq![seq![deep], seq![shallow]]) == seq![deep] + marked_unlikely(
            seq![shallow],
        ),
        flatten_branched(seq![seq![shallow], seq![deep]]) == marked_unlikely(seq![shallow]) + seq![
            deep,
        ],
{
    let none = Seq::<ParseErrorView>::empty();
    assert(seq![deep].drop_last() =~= none);
    assert(seq![shallow].drop_last() =~= none);
    assert(branch_depth(none) == (0nat, 0nat));
    assert(pos_before(words[early].pos(), words[late].pos()));
    assert(branch_depth(seq![deep]) == words[late].pos());
    assert(branch_depth(seq![shallow]) == words[early].pos());
    lemma_deeper_branch_wins(seq![deep], seq![shallow]);
}

} // verus!
