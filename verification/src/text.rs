//! Characters and strings: what the library takes on trust about the
//! standard library, and the small helpers built on it.
use vstd::prelude::*;

verus! {

/// Whether `char::is_whitespace` holds of the character.
pub uninterp spec fn whitespace(ch: char) -> bool;

/// Whether `char::is_alphanumeric` holds of the character.
pub uninterp spec fn alphanumeric(ch: char) -> bool;

/// Whether `char::is_numeric` holds of the character.
pub uninterp spec fn numeric(ch: char) -> bool;

/// Whether `char::is_uppercase` holds of the character.
pub uninterp spec fn uppercase(ch: char) -> bool;

/// Whether `char::is_lowercase` holds of the character.
pub uninterp spec fn lowercase(ch: char) -> bool;

/// `char::is_whitespace` decides by the character alone, from the Unicode
/// tables of the standard library.
pub assume_specification[ char::is_whitespace ](c: char) -> (res: bool)
    ensures
        res == whitespace(c),
;

/// `char::is_alphanumeric` decides by the character alone, from the Unicode
/// tables of the standard library.
pub assume_specification[ char::is_alphanumeric ](c: char) -> (res: bool)
    ensures
        res == alphanumeric(c),
;

/// `char::is_numeric` decides by the character alone, from the Unicode
/// tables of the standard library.
pub assume_specification[ char::is_numeric ](c: char) -> (res: bool)
    ensures
        res == numeric(c),
;

/// `char::is_uppercase` decides by the character alone, from the Unicode
/// tables of the standard library.
pub assume_specification[ char::is_uppercase ](c: char) -> (res: bool)
    ensures
        res == uppercase(c),
;

/// `char::is_lowercase` decides by the character alone, from the Unicode
/// tables of the standard library.
pub assume_specification[ char::is_lowercase ](c: char) -> (res: bool)
    ensures
        res == lowercase(c),
;

/// `String::push` appends one character.
pub assume_specification[ String::push ](s: &mut String, c: char)
    ensures
        final(s)@ == old(s)@.push(c),
;

/// The characters of a text, in order.
pub fn chars_of(text: &str) -> (res: Vec<char>)
    ensures
        res@ == text@,
{
    let mut res: Vec<char> = Vec::new();
    for ch in it: text.chars()
        invariant
            res@ == it.seq().take(it.index() as int),
            it.seq() == text@,
    {
        res.push(ch);
    }
    res
}

/// The text made of the characters `chars[from..to]`.
pub fn text_of(chars: &Vec<char>, from: usize, to: usize) -> (res: String)
    requires
        from <= to <= chars@.len(),
    ensures
        res@ == chars@.subrange(from as int, to as int),
{
    let mut res = String::new();
    let mut i: usize = from;
    while i < to
        invariant
            from <= i <= to <= chars@.len(),
            res@ == chars@.subrange(from as int, i as int),
        decreases to - i,
    {
        res.push(chars[i]);
        i += 1;
        assert(chars@.subrange(from as int, i as int) =~= chars@.subrange(from as int, i - 1).push(
            chars@[i - 1],
        ));
    }
    assert(chars@.subrange(from as int, from as int) =~= Seq::<char>::empty());
    res
}

/// A character with what the standard library says of it: whether it is
/// whitespace, alphanumeric, numeric, uppercase or lowercase. The rules of
/// the library read these marks and never ask about a character themselves.
#[derive(Clone, Copy, Debug, PartialEq, Eq)]
pub struct Glyph {
    pub ch: char,
    pub whitespace: bool,
    pub alphanumeric: bool,
    pub numeric: bool,
    pub uppercase: bool,
    pub lowercase: bool,
}

/// The character with the marks that the standard library gives it.
pub open spec fn glyph_of(ch: char) -> Glyph {
    Glyph {
        ch,
        whitespace: whitespace(ch),
        alphanumeric: alphanumeric(ch),
        numeric: numeric(ch),
        uppercase: uppercase(ch),
        lowercase: lowercase(ch),
    }
}

/// The characters of a text with the marks that the standard library gives
/// them.
pub open spec fn glyphs_of(text: Seq<char>) -> Seq<Glyph> {
    text.map_values(|ch: char| glyph_of(ch))
}

/// The characters of a run of glyphs.
pub open spec fn glyph_text(glyphs: Seq<Glyph>) -> Seq<char> {
    glyphs.map_values(|glyph: Glyph| glyph.ch)
}

/// Asks the standard library about a character.
pub fn classify(ch: char) -> (res: Glyph)
    ensures
        res == glyph_of(ch),
{
    Glyph {
        ch,
        whitespace: ch.is_whitespace(),
        alphanumeric: ch.is_alphanumeric(),
        numeric: ch.is_numeric(),
        uppercase: ch.is_uppercase(),
        lowercase: ch.is_lowercase(),
    }
}

/// Asks the standard library about every character of a text.
pub fn classify_text(text: &str) -> (res: Vec<Glyph>)
    ensures
        res@ == glyphs_of(text@),
{
    let chars = chars_of(text);
    classify_all(&chars, 0, chars.len())
}

/// Asks the standard library about the characters `chars[from..to]`.
pub fn classify_all(chars: &Vec<char>, from: usize, to: usize) -> (res: Vec<Glyph>)
    requires
        from <= to <= chars@.len(),
    ensures
        res@ == glyphs_of(chars@.subrange(from as int, to as int)),
{
    let mut res: Vec<Glyph> = Vec::new();
    let mut i: usize = from;
    while i < to
        invariant
            from <= i <= to <= chars@.len(),
            res@ == glyphs_of(chars@.subrange(from as int, i as int)),
        decreases to - i,
    {
        res.push(classify(chars[i]));
        i += 1;
        assert(chars@.subrange(from as int, i as int) =~= chars@.subrange(from as int, i - 1).push(
            chars@[i - 1],
        ));
        assert(res@ =~= glyphs_of(chars@.subrange(from as int, i as int)));
    }
    assert(res@ =~= glyphs_of(chars@.subrange(from as int, i as int))) by {
        assert(chars@.subrange(from as int, from as int) =~= Seq::<char>::empty());
    }
    res
}

/// The text made of the characters of `glyphs[from..to]`.
pub fn glyphs_text(glyphs: &Vec<Glyph>, from: usize, to: usize) -> (res: String)
    requires
        from <= to <= glyphs@.len(),
    ensures
        res@ == glyph_text(glyphs@.subrange(from as int, to as int)),
{
    let mut res = String::new();
    let mut i: usize = from;
    assert(res@ =~= glyph_text(glyphs@.subrange(from as int, i as int)));
    while i < to
        invariant
            from <= i <= to <= glyphs@.len(),
            res@ == glyph_text(glyphs@.subrange(from as int, i as int)),
        decreases to - i,
    {
        res.push(glyphs[i].ch);
        i += 1;
        assert(res@ =~= glyph_text(glyphs@.subrange(from as int, i as int)));
    }
    res
}

} // verus!
