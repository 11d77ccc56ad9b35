//! A backtracking parser-combinator engine over a word-based token tree.
//!
//! Source text is split into words, with the words between matching brackets
//! folded into groups. Parsers read the words through windows, which borrow
//! the word list and never copy it. Every parser returns a value if it found
//! one, the window to go on from, and the errors it met; where several
//! alternatives fail, the errors of the one that got furthest stand out.
//!
//! - `words`: the token model.
//! - `text`, `scan`, `nesting`, `tokenizer`: from text to the token tree.
//! - `order`: the words of a token tree stand in the order of their positions.
//! - `window`: the view through which parsers read.
//! - `result`: the parse result, the error record and the `Parser` trait.
//! - `basics`, `boxes`, `collections`, `brackets`, `separators`: the parsers.
//! - `grammar`: building blocks for the parsers of records and tagged unions.
//! - `ambiguity`: telling likely errors from unlikely ones.
//! - `report`: gathering errors for display.
pub mod ambiguity;
pub mod basics;
pub mod boxes;
pub mod brackets;
pub mod collections;
pub mod grammar;
pub mod nesting;
pub mod order;
pub mod report;
pub mod result;
pub mod scan;
pub mod separators;
pub mod text;
pub mod tokenizer;
pub mod window;
pub mod words;

pub use ambiguity::flatten_branched_errors;
pub use basics::{
    parse_helper, parse_integer, parse_text, same_text, type_name_shape, value_name_shape,
    TypeName, ValueName,
};
pub use brackets::{CurlyBrackets, Parentheses, SquareBrackets};
pub use collections::NonEmptyVec;
pub use grammar::{Fields, Variants};
pub use nesting::nest;
pub use report::{show_errors, Diagnostic, ErrorFile, ReportEntry};
pub use result::{parse_to_type, ParseError, ParseErrorView, ParseResult, Parsed, Parser};
pub use scan::line_tokens;
pub use separators::{
    ArrowRight, Colon, Comma, NonEmptyStartTextVec, SeparatedBy, SeparatedBySeparator,
    SeparatedOnce, Semicolon, StartTextVec,
};
pub use text::{classify, classify_text, Glyph};
pub use tokenizer::split_words;
pub use window::{VecWindow, WindowView};
pub use words::{BracketPair, Word, WordValue, WordValueView, WordView};
