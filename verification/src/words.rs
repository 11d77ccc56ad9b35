//! The token model: a word is either a piece of literal text or a bracket
//! group that holds the words between its two bracket characters.
use vstd::prelude::*;

verus! {

/// What a token holds.
#[derive(Debug, PartialEq, Eq)]
pub enum WordValue {
    /// Literal text: an operator, an identifier, a number, or a quoted string
    /// that still carries its quote characters.
    Word(String),
    /// A bracket group with the words between the two bracket characters.
    Brackets { open: char, inner: Vec<Word>, close: char },
}

/// A token with the place in the source text where it was found.
#[derive(Debug, PartialEq, Eq)]
pub struct Word {
    pub value: WordValue,
    pub line: usize,
    pub column_from: usize,
    pub column_to: usize,
}

/// The two characters that open and close a bracket group.
#[derive(Debug, PartialEq, Eq)]
pub struct BracketPair {
    pub open: char,
    pub close: char,
}

/// The mathematical value of a `WordValue`.
pub ghost enum WordValueView {
    Word(Seq<char>),
    Brackets { open: char, inner: Seq<WordView>, close: char },
}

/// The mathematical value of a `Word`.
pub ghost struct WordView {
    pub value: WordValueView,
    pub line: nat,
    pub column_from: nat,
    pub column_to: nat,
}

impl WordValueView {
    /// The text shown for the value in a message: the literal itself, or the
    /// two bracket characters of a group.
    pub open spec fn display_text(self) -> Seq<char> {
        match self {
            WordValueView::Word(text) => text,
            WordValueView::Brackets { open, close, .. } => seq![open, close],
        }
    }
}

impl WordView {
    /// The text of a literal token; a bracket group has none.
    pub open spec fn text(self) -> Option<Seq<char>> {
        match self.value {
            WordValueView::Word(text) => Some(text),
            WordValueView::Brackets { .. } => None,
        }
    }

    /// The token is the literal `text`.
    pub open spec fn is_text(self, text: Seq<char>) -> bool {
        self.text() == Some(text)
    }

    /// The words inside the group, if the token is a group with exactly
    /// these bracket characters.
    pub open spec fn brackets(self, open: char, close: char) -> Option<Seq<WordView>> {
        match self.value {
            WordValueView::Brackets { open: o, inner, close: c } => if o == open && c == close {
                Some(inner)
            } else {
                None
            },
            WordValueView::Word(_) => None,
        }
    }

    /// The text shown for the token in a message: the literal itself, or the
    /// two bracket characters of a group.
    pub open spec fn display_text(self) -> Seq<char> {
        self.value.display_text()
    }

    /// Line and first column.
    pub open spec fn pos(self) -> (nat, nat) {
        (self.line, self.column_from)
    }
}

/// The values of the first `count` words of a list.
pub open spec fn word_views_upto(words: Seq<Word>, count: nat) -> Seq<WordView>
    decreases words, count,
{
    if count == 0 || count > words.len() {
        Seq::empty()
    } else {
        word_views_upto(words, (count - 1) as nat).push(words[count - 1].view())
    }
}

/// The values of a sequence of words.
pub open spec fn word_views(words: Seq<Word>) -> Seq<WordView> {
    word_views_upto(words, words.len())
}

impl View for WordValue {
    type V = WordValueView;

    open spec fn view(&self) -> WordValueView
        decreases self, 0nat,
    {
        match self {
            WordValue::Word(text) => WordValueView::Word(text@),
            WordValue::Brackets { open, inner, close } => WordValueView::Brackets {
                open: *open,
                inner: word_views_upto(inner@, inner@.len()),
                close: *close,
            },
        }
    }
}

impl View for Word {
    type V = WordView;

    open spec fn view(&self) -> WordView
        decreases self, 0nat,
    {
        WordView {
            value: self.value.view(),
            line: self.line as nat,
            column_from: self.column_from as nat,
            column_to: self.column_to as nat,
        }
    }
}

/// `word_views` takes the value of each word, in order.
pub proof fn lemma_word_views(words: Seq<Word>)
    ensures
        (#[trigger] word_views(words)).len() == words.len(),
        forall|i: int| 0 <= i < words.len() ==> (#[trigger] word_views(words)[i]) == words[i]@,
{
    lemma_word_views_upto(words, words.len());
}

proof fn lemma_word_views_upto(words: Seq<Word>, count: nat)
    requires
        count <= words.len(),
    ensures
        word_views_upto(words, count).len() == count,
        forall|i: int|
            0 <= i < count ==> (#[trigger] word_views_upto(words, count)[i]) == words[i]@,
    decreases count,
{
    if count > 0 {
        lemma_word_views_upto(words, (count - 1) as nat);
        assert(word_views_upto(words, count) == word_views_upto(words, (count - 1) as nat).push(
            words[count - 1]@,
        ));
    } else {
        assert(word_views_upto(words, count) == Seq::<WordView>::empty());
    }
}

impl Clone for BracketPair {
    fn clone(&self) -> (res: Self)
        ensures
            res == *self,
    {
        BracketPair { open: self.open, close: self.close }
    }
}

/// The value of a group is made of the values of the words inside it.
pub proof fn lemma_group_view(word: Word)
    ensures
        word@.value == word.value@,
        match word.value {
            WordValue::Word(text) => word.value@ == WordValueView::Word(text@),
            WordValue::Brackets { open, inner, close } => word.value@
                == (WordValueView::Brackets { open, inner: word_views(inner@), close }),
        },
{
}

/// A copy of a list of words with the same value.
pub fn clone_words(words: &Vec<Word>) -> (res: Vec<Word>)
    ensures
        word_views(res@) == word_views(words@),
    decreases words,
{
    let mut res: Vec<Word> = Vec::new();
    let mut i: usize = 0;
    while i < words.len()
        invariant
            i <= words.len(),
            res@.len() == i,
            forall|k: int| 0 <= k < i ==> (#[trigger] res@[k])@ == words@[k]@,
        decreases words.len() - i,
    {
        let word = words[i].clone();
        res.push(word);
        i += 1;
    }
    proof {
        lemma_word_views(res@);
        lemma_word_views(words@);
    }
    assert(word_views(res@) =~= word_views(words@));
    res
}

impl Clone for WordValue {
    fn clone(&self) -> (res: Self)
        ensures
            res@ == self@,
        decreases self,
    {
        match self {
            WordValue::Word(text) => WordValue::Word(text.clone()),
            WordValue::Brackets { open, inner, close } => WordValue::Brackets {
                open: *open,
                inner: clone_words(inner),
                close: *close,
            },
        }
    }
}

impl Clone for Word {
    fn clone(&self) -> (res: Self)
        ensures
            res@ == self@,
        decreases self,
    {
        Word {
            value: self.value.clone(),
            line: self.line,
            column_from: self.column_from,
            column_to: self.column_to,
        }
    }
}

impl WordValue {
    /// The text shown for the value in a message: the literal itself, or the
    /// two bracket characters of a group.
    pub fn display_text(&self) -> (res: String)
        ensures
            res@ == self@.display_text(),
    {
        match self {
            WordValue::Word(word) => word.clone(),
            WordValue::Brackets { open, close, .. } => {
                let mut text = String::new();
                text.push(*open);
                text.push(*close);
                assert(text@ =~= seq![*open, *close]);
                text
            },
        }
    }
}

impl Word {
    /// The text of a literal token.
    pub fn get_word(&self) -> (res: Option<&str>)
        ensures
            res is Some <==> self@.text() is Some,
            res matches Some(text) ==> self@.text() == Some(text@),
    {
        match &self.value {
            WordValue::Word(word) => Some(word.as_str()),
            _ => None,
        }
    }

    /// The words inside the token, if it is a group with exactly these
    /// bracket characters.
    pub fn get_brackets(&self, open: char, close: char) -> (res: Option<&Vec<Word>>)
        ensures
            res is Some <==> self@.brackets(open, close) is Some,
            res matches Some(inner) ==> self@.brackets(open, close) == Some(word_views(inner@)),
    {
        proof {
            lemma_group_view(*self);
        }
        match &self.value {
            WordValue::Brackets { open: o, inner, close: c } => {
                if *o == open && *c == close {
                    Some(inner)
                } else {
                    None
                }
            },
            _ => None,
        }
    }

    /// The text shown for the token in a message.
    pub fn display_text(&self) -> (res: String)
        ensures
            res@ == self@.display_text(),
    {
        self.value.display_text()
    }

    /// Line and first column.
    pub fn pos(&self) -> (res: (usize, usize))
        ensures
            res.0 == self@.pos().0,
            res.1 == self@.pos().1,
    {
        (self.line, self.column_from)
    }
}

} // verus!
