//! From tokens to a tree: how bracket characters fold the tokens between
//! them into groups.
//!
//! Nothing is rejected here. A closing bracket closes the open groups up to
//! the nearest one of its own kind, and all of them if there is none; a
//! closing bracket with nothing open is dropped; groups that are still open
//! at the end are closed there.
use vstd::prelude::*;
use vstd::string::StrSliceExecFns;
use crate::words::{
    lemma_group_view, lemma_word_views, word_views, BracketPair, Word, WordValue, WordValueView,
    WordView,
};

verus! {

/// A bracket group that has been opened and not yet closed.
pub ghost struct FrameView {
    pub open: char,
    pub close: char,
    pub line: nat,
    pub column_from: nat,
    pub inner: Seq<WordView>,
}

/// The group that an open group becomes when it is closed by a token that
/// ends at `column_to`.
pub open spec fn group_word(frame: FrameView, column_to: nat) -> WordView {
    WordView {
        value: WordValueView::Brackets { open: frame.open, inner: frame.inner, close: frame.close },
        line: frame.line,
        column_from: frame.column_from,
        column_to,
    }
}

/// The first bracket pair from `at` on whose opening character (or closing
/// character, if `closing`) alone makes up `text`.
pub open spec fn find_pair(
    brackets: Seq<BracketPair>,
    text: Seq<char>,
    closing: bool,
    at: int,
) -> Option<BracketPair>
    decreases brackets.len() - at,
{
    if at < 0 || at >= brackets.len() {
        None
    } else if text == seq![if closing { brackets[at].close } else { brackets[at].open }] {
        Some(brackets[at])
    } else {
        find_pair(brackets, text, closing, at + 1)
    }
}

/// The state of grouping: the words finished at the top level, and the
/// groups that are open, the innermost last.
pub ghost struct Nesting {
    pub root: Seq<WordView>,
    pub stack: Seq<FrameView>,
}

impl Nesting {
    /// Nothing read yet.
    pub open spec fn empty() -> Nesting {
        Nesting { root: Seq::empty(), stack: Seq::empty() }
    }

    /// Adds a finished word to the innermost open group, or to the top level
    /// if no group is open.
    pub open spec fn append(self, word: WordView) -> Nesting {
        if self.stack.len() == 0 {
            Nesting { root: self.root.push(word), stack: self.stack }
        } else {
            let top = self.stack.last();
            Nesting {
                root: self.root,
                stack: self.stack.drop_last().push(
                    FrameView { inner: top.inner.push(word), ..top },
                ),
            }
        }
    }

    /// Opens a group.
    pub open spec fn open_group(self, pair: BracketPair, line: nat, column_from: nat) -> Nesting {
        Nesting {
            root: self.root,
            stack: self.stack.push(
                FrameView {
                    open: pair.open,
                    close: pair.close,
                    line,
                    column_from,
                    inner: Seq::empty(),
                },
            ),
        }
    }

    /// Closes the innermost open group and adds it to what is around it.
    pub open spec fn close_top(self, column_to: nat) -> Nesting
        recommends
            self.stack.len() > 0,
    {
        Nesting { root: self.root, stack: self.stack.drop_last() }.append(
            group_word(self.stack.last(), column_to),
        )
    }

    /// Closes open groups from the innermost outwards, up to and including
    /// the first that was opened for `pair`; all of them if there is none.
    pub open spec fn close_until(self, pair: BracketPair, column_to: nat) -> Nesting
        decreases self.stack.len(),
    {
        if self.stack.len() == 0 {
            self
        } else {
            let top = self.stack.last();
            let closed = self.close_top(column_to);
            if top.open == pair.open && top.close == pair.close {
                closed
            } else {
                closed.close_until(pair, column_to)
            }
        }
    }

    /// Closes every open group, as if a token that ends at column zero
    /// closed it.
    pub open spec fn close_all(self) -> Nesting
        decreases self.stack.len(),
    {
        if self.stack.len() == 0 {
            self
        } else {
            self.close_top(0).close_all()
        }
    }

    /// Takes in one token: a literal that is an opening bracket opens a
    /// group, one that is a closing bracket closes groups, and anything else
    /// is a finished word.
    pub open spec fn push(self, brackets: Seq<BracketPair>, word: WordView) -> Nesting {
        match word.text() {
            Some(text) => match find_pair(brackets, text, false, 0) {
                Some(pair) => self.open_group(pair, word.line, word.column_from),
                None => match find_pair(brackets, text, true, 0) {
                    Some(pair) => self.close_until(pair, word.column_to),
                    None => self.append(word),
                },
            },
            None => self.append(word),
        }
    }

    /// Takes in a run of tokens, in order.
    pub open spec fn push_all(self, brackets: Seq<BracketPair>, words: Seq<WordView>) -> Nesting
        decreases words.len(),
    {
        if words.len() == 0 {
            self
        } else {
            self.push_all(brackets, words.drop_last()).push(brackets, words.last())
        }
    }
}

/// The text is a single character that opens or closes one of the bracket
/// pairs.
pub open spec fn is_bracket_text(brackets: Seq<BracketPair>, text: Seq<char>) -> bool {
    find_pair(brackets, text, false, 0) is Some || find_pair(brackets, text, true, 0) is Some
}

/// No literal word in the tree of this word is a bracket character of one of
/// the pairs: every such character has become the edge of a group.
pub open spec fn resolved(word: WordView, brackets: Seq<BracketPair>) -> bool
    decreases word,
{
    match word.value {
        WordValueView::Word(text) => !is_bracket_text(brackets, text),
        WordValueView::Brackets { inner, .. } => forall|i: int|
            0 <= i < inner.len() ==> resolved(#[trigger] inner[i], brackets),
    }
}

/// Every word of the list is resolved.
pub open spec fn all_resolved(words: Seq<WordView>, brackets: Seq<BracketPair>) -> bool {
    forall|i: int| 0 <= i < words.len() ==> resolved(#[trigger] words[i], brackets)
}

impl Nesting {
    /// All words taken in so far are resolved.
    pub open spec fn resolved(self, brackets: Seq<BracketPair>) -> bool {
        &&& all_resolved(self.root, brackets)
        &&& forall|k: int|
            0 <= k < self.stack.len() ==> all_resolved((#[trigger] self.stack[k]).inner, brackets)
    }
}

proof fn lemma_append_resolved(state: Nesting, brackets: Seq<BracketPair>, word: WordView)
    requires
        state.resolved(brackets),
        resolved(word, brackets),
    ensures
        state.append(word).resolved(brackets),
{
    let after = state.append(word);
    if state.stack.len() > 0 {
        assert forall|k: int| 0 <= k < after.stack.len() implies all_resolved(
            (#[trigger] after.stack[k]).inner,
            brackets,
        ) by {
            assert(all_resolved(state.stack[k].inner, brackets));
        }
    }
}

proof fn lemma_close_top_resolved(state: Nesting, brackets: Seq<BracketPair>, column_to: nat)
    requires
        state.resolved(brackets),
        state.stack.len() > 0,
    ensures
        state.close_top(column_to).resolved(brackets),
        state.close_top(column_to).stack.len() == state.stack.len() - 1,
{
    let below = Nesting { root: state.root, stack: state.stack.drop_last() };
    let word = group_word(state.stack.last(), column_to);
    assert(all_resolved(state.stack.last().inner, brackets));
    assert(resolved(word, brackets));
    assert forall|k: int| 0 <= k < below.stack.len() implies all_resolved(
        (#[trigger] below.stack[k]).inner,
        brackets,
    ) by {
        assert(all_resolved(state.stack[k].inner, brackets));
    }
    lemma_append_resolved(below, brackets, word);
}

proof fn lemma_close_until_resolved(
    state: Nesting,
    brackets: Seq<BracketPair>,
    pair: BracketPair,
    column_to: nat,
)
    requires
        state.resolved(brackets),
    ensures
        state.close_until(pair, column_to).resolved(brackets),
    decreases state.stack.len(),
{
    if state.stack.len() > 0 {
        lemma_close_top_resolved(state, brackets, column_to);
        let top = state.stack.last();
        if !(top.open == pair.open && top.close == pair.close) {
            lemma_close_until_resolved(state.close_top(column_to), brackets, pair, column_to);
        }
    }
}

/// Closing every open group keeps all words resolved and leaves no group
/// open.
proof fn lemma_close_all_resolved(state: Nesting, brackets: Seq<BracketPair>)
    requires
        state.resolved(brackets),
    ensures
        state.close_all().resolved(brackets),
        state.close_all().stack.len() == 0,
    decreases state.stack.len(),
{
    if state.stack.len() > 0 {
        lemma_close_top_resolved(state, brackets, 0);
        lemma_close_all_resolved(state.close_top(0), brackets);
    }
}

/// Taking in literal words keeps all words resolved.
proof fn lemma_push_all_resolved(
    state: Nesting,
    brackets: Seq<BracketPair>,
    words: Seq<WordView>,
)
    requires
        state.resolved(brackets),
        forall|i: int|
            0 <= i < words.len() ==> (#[trigger] words[i]).value is Word || resolved(
                words[i],
                brackets,
            ),
    ensures
        state.push_all(brackets, words).resolved(brackets),
    decreases words.len(),
{
    if words.len() > 0 {
        lemma_push_all_resolved(state, brackets, words.drop_last());
        let before = state.push_all(brackets, words.drop_last());
        let word = words.last();
        match word.text() {
            Some(text) => match find_pair(brackets, text, false, 0) {
                Some(pair) => {
                    let after = before.open_group(pair, word.line, word.column_from);
                    assert forall|k: int| 0 <= k < after.stack.len() implies all_resolved(
                        (#[trigger] after.stack[k]).inner,
                        brackets,
                    ) by {
                        if k < before.stack.len() {
                            assert(all_resolved(before.stack[k].inner, brackets));
                        }
                    }
                },
                None => match find_pair(brackets, text, true, 0) {
                    Some(pair) => {
                        lemma_close_until_resolved(before, brackets, pair, word.column_to);
                    },
                    None => {
                        assert(resolved(word, brackets));
                        lemma_append_resolved(before, brackets, word);
                    },
                },
            },
            None => {
                assert(resolved(word, brackets));
                lemma_append_resolved(before, brackets, word);
            },
        }
    }
}

/// The tree that a run of tokens folds into: every token is taken in, and
/// the groups that are still open at the end are closed.
pub open spec fn grouped(brackets: Seq<BracketPair>, words: Seq<WordView>) -> Seq<WordView> {
    Nesting::empty().push_all(brackets, words).close_all().root
}

/// Folding tokens into groups leaves no bracket character behind: if the
/// groups among the tokens hold none, neither does the tree.
pub proof fn lemma_grouped_resolved(brackets: Seq<BracketPair>, words: Seq<WordView>)
    requires
        forall|i: int|
            0 <= i < words.len() ==> (#[trigger] words[i]).value is Word || resolved(
                words[i],
                brackets,
            ),
    ensures
        all_resolved(grouped(brackets, words), brackets),
{
    lemma_push_all_resolved(Nesting::empty(), brackets, words);
    lemma_close_all_resolved(Nesting::empty().push_all(brackets, words), brackets);
}

/// A group that has been opened and not yet closed, with the words read
/// into it so far.
struct Frame {
    pair: BracketPair,
    line: usize,
    column_from: usize,
    inner: Vec<Word>,
}

impl View for Frame {
    type V = FrameView;

    closed spec fn view(&self) -> FrameView {
        FrameView {
            open: self.pair.open,
            close: self.pair.close,
            line: self.line as nat,
            column_from: self.column_from as nat,
            inner: word_views(self.inner@),
        }
    }
}

/// The words finished at the top level and the stack of open groups, the
/// innermost last.
struct TempBrackets {
    root: Vec<Word>,
    stack: Vec<Frame>,
    brackets: Vec<BracketPair>,
}

impl View for TempBrackets {
    type V = Nesting;

    closed spec fn view(&self) -> Nesting {
        Nesting { root: word_views(self.root@), stack: self.stack@.map_values(|f: Frame| f@) }
    }
}

/// The values of a list with one more word.
proof fn lemma_word_views_push(words: Seq<Word>, word: Word)
    ensures
        word_views(words.push(word)) == word_views(words).push(word@),
{
    lemma_word_views(words);
    lemma_word_views(words.push(word));
    assert(word_views(words.push(word)) =~= word_views(words).push(word@));
}

/// The text is the one character `ch`.
fn is_char(text: &str, ch: char) -> (res: bool)
    ensures
        res == (text@ == seq![ch]),
{
    if text.unicode_len() == 1 {
        let first = text.get_char(0);
        assert(first == ch ==> text@ =~= seq![ch]);
        first == ch
    } else {
        false
    }
}

impl TempBrackets {
    /// Nothing read yet.
    fn new(brackets: Vec<BracketPair>) -> (res: Self)
        ensures
            res@ == Nesting::empty(),
            res.brackets == brackets,
    {
        let res = Self { root: Vec::new(), stack: Vec::new(), brackets };
        proof {
            lemma_word_views(res.root@);
            assert(res@.root =~= Seq::empty());
            assert(res@.stack =~= Seq::empty());
        }
        res
    }

    /// The first bracket pair whose opening character (or closing character,
    /// if `closing`) alone makes up `value`.
    fn find(&self, value: &str, closing: bool) -> (res: Option<BracketPair>)
        ensures
            res == find_pair(self.brackets@, value@, closing, 0),
    {
        let mut i: usize = 0;
        while i < self.brackets.len()
            invariant
                i <= self.brackets@.len(),
                find_pair(self.brackets@, value@, closing, 0) == find_pair(
                    self.brackets@,
                    value@,
                    closing,
                    i as int,
                ),
            decreases self.brackets.len() - i,
        {
            let ch = if closing {
                self.brackets[i].close
            } else {
                self.brackets[i].open
            };
            if is_char(value, ch) {
                return Some(self.brackets[i].clone());
            }
            i += 1;
        }
        None
    }

    /// Adds a finished word to the innermost open group, or to the top level
    /// if no group is open.
    fn append(&mut self, word: Word)
        ensures
            final(self)@ == old(self)@.append(word@),
            final(self).brackets == old(self).brackets,
    {
        match self.stack.pop() {
            Some(mut top) => {
                proof {
                    lemma_word_views_push(top.inner@, word);
                }
                top.inner.push(word);
                self.stack.push(top);
                assert(self@.stack =~= old(self)@.append(word@).stack);
            },
            None => {
                proof {
                    lemma_word_views_push(self.root@, word);
                }
                self.root.push(word);
                assert(self@.stack =~= old(self)@.append(word@).stack);
            },
        }
    }

    /// Closes the innermost open group, if there is one, and says of which
    /// kind it was.
    fn close_top(&mut self, column_to: usize) -> (res: Option<BracketPair>)
        ensures
            final(self).brackets == old(self).brackets,
            res is Some <==> old(self)@.stack.len() > 0,
            res matches Some(pair) ==> {
                &&& pair.open == old(self)@.stack.last().open
                &&& pair.close == old(self)@.stack.last().close
                &&& final(self)@ == old(self)@.close_top(column_to as nat)
            },
            res is None ==> final(self)@ == old(self)@,
    {
        match self.stack.pop() {
            Some(frame) => {
                let ghost below = self@;
                assert(below.stack =~= old(self)@.stack.drop_last());
                assert(frame@ == old(self)@.stack.last());
                let pair = frame.pair.clone();
                let word = Word {
                    value: WordValue::Brackets {
                        open: frame.pair.open,
                        inner: frame.inner,
                        close: frame.pair.close,
                    },
                    line: frame.line,
                    column_from: frame.column_from,
                    column_to,
                };
                proof {
                    lemma_group_view(word);
                    assert(word@ == group_word(frame@, column_to as nat));
                }
                self.append(word);
                Some(pair)
            },
            None => {
                assert(self@.stack =~= old(self)@.stack);
                None
            },
        }
    }

    /// Takes in one token.
    fn push(&mut self, line: usize, column_from: usize, column_to: usize, value: String)
        ensures
            final(self)@ == old(self)@.push(
                old(self).brackets@,
                WordView {
                    value: WordValueView::Word(value@),
                    line: line as nat,
                    column_from: column_from as nat,
                    column_to: column_to as nat,
                },
            ),
            final(self).brackets == old(self).brackets,
    {
        if let Some(bp) = self.find(value.as_str(), false) {
            let inner = Vec::new();
            proof {
                lemma_word_views(inner@);
                assert(word_views(inner@) =~= Seq::empty());
            }
            self.stack.push(Frame { pair: bp, line, column_from, inner });
            assert(self@.stack =~= old(self)@.open_group(
                bp,
                line as nat,
                column_from as nat,
            ).stack);
            return ;
        }
        if let Some(bp) = self.find(value.as_str(), true) {
            loop
                invariant_except_break
                    self@.close_until(bp, column_to as nat) == old(self)@.close_until(
                        bp,
                        column_to as nat,
                    ),
                invariant
                    self.brackets == old(self).brackets,
                ensures
                    self.brackets == old(self).brackets,
                    self@ == old(self)@.close_until(bp, column_to as nat),
                decreases self@.stack.len(),
            {
                let ghost before = self@;
                match self.close_top(column_to) {
                    Some(closed) => {
                        if closed.open == bp.open && closed.close == bp.close {
                            break ;
                        }
                        assert(self@.stack.len() < before.stack.len());
                    },
                    None => {
                        break ;
                    },
                }
            }
            return ;
        }
        let word = Word { value: WordValue::Word(value), line, column_from, column_to };
        self.append(word);
    }

    /// Closes the groups that are still open and gives the words of the top
    /// level.
    fn finish(self) -> (res: Vec<Word>)
        ensures
            word_views(res@) == self@.close_all().root,
    {
        let mut state = self;
        loop
            invariant
                state@.close_all() == self@.close_all(),
            ensures
                state@.stack.len() == 0,
                state@.close_all() == self@.close_all(),
            decreases state@.stack.len(),
        {
            let ghost before = state@;
            match state.close_top(0) {
                Some(_) => {
                    assert(state@.stack.len() < before.stack.len());
                },
                None => {
                    break ;
                },
            }
        }
        state.root
    }
}

/// Folds the tokens between matching bracket characters into groups.
///
/// A closing bracket closes the open groups up to the nearest one of its own
/// kind, whatever kinds lie between, and all of them if there is none; a
/// closing bracket with nothing open is dropped; groups still open at the end
/// are closed there.
pub fn nest(words: &Vec<Word>, brackets: Vec<BracketPair>) -> (res: Vec<Word>)
    ensures
        word_views(res@) == grouped(brackets@, word_views(words@)),
{
    let ghost pairs = brackets@;
    let ghost all = word_views(words@);
    let mut state = TempBrackets::new(brackets);
    let mut i: usize = 0;
    proof {
        lemma_word_views(words@);
        assert(all.take(0) =~= Seq::<WordView>::empty());
    }
    while i < words.len()
        invariant
            i <= words@.len(),
            all == word_views(words@),
            all.len() == words@.len(),
            state.brackets@ == pairs,
            state@ == Nesting::empty().push_all(pairs, all.take(i as int)),
        decreases words.len() - i,
    {
        let word = &words[i];
        proof {
            lemma_word_views(words@);
            lemma_group_view(*word);
            assert(all.take(i + 1).drop_last() =~= all.take(i as int));
            assert(all.take(i + 1).last() == word@);
        }
        match &word.value {
            WordValue::Word(text) => {
                state.push(word.line, word.column_from, word.column_to, text.clone());
            },
            WordValue::Brackets { .. } => {
                state.append(word.clone());
            },
        }
        i += 1;
    }
    assert(all.take(i as int) =~= all);
    state.finish()
}

} // verus!
