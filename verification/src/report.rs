//! Gathering parse errors for display.
//!
//! Errors that point at the same place in the source become one entry that
//! names everything that was expected there. Entries are kept in the order
//! in which they are shown: by line, and within a line the entry that starts
//! further to the right first. An entry made of unlikely errors only is
//! shown on request alone.
use vstd::prelude::*;
use vstd::string::StringExecFns;
use crate::basics::same_text;
use crate::result::{error_views, ParseError, ParseErrorView};
use crate::text::{chars_of, text_of};
use crate::scan::{lemma_line_end, line_at, next_line, text_line};

verus! {

/// All that was expected at one place of the source, and what stood there.
#[derive(Debug, PartialEq, Eq)]
pub struct Diagnostic {
    pub line: usize,
    pub from: usize,
    pub to: usize,
    pub expected: Vec<String>,
    pub got: String,
    /// The entry is about the end of the input and points at no place in
    /// the source.
    pub at_end: bool,
    /// Every error that went into the entry was marked as unlikely.
    pub unlikely: bool,
}

/// The mathematical value of a `Diagnostic`.
pub ghost struct DiagnosticView {
    pub line: nat,
    pub from: nat,
    pub to: nat,
    pub expected: Seq<Seq<char>>,
    pub got: Seq<char>,
    pub at_end: bool,
    pub unlikely: bool,
}

/// The characters of each of a list of texts.
pub open spec fn text_views(texts: Seq<String>) -> Seq<Seq<char>> {
    texts.map_values(|text: String| text@)
}

impl View for Diagnostic {
    type V = DiagnosticView;

    open spec fn view(&self) -> DiagnosticView {
        DiagnosticView {
            line: self.line as nat,
            from: self.from as nat,
            to: self.to as nat,
            expected: text_views(self.expected@),
            got: self.got@,
            at_end: self.at_end,
            unlikely: self.unlikely,
        }
    }
}

/// The values of a list of entries.
pub open spec fn diagnostic_views(entries: Seq<Diagnostic>) -> Seq<DiagnosticView> {
    entries.map_values(|entry: Diagnostic| entry@)
}

/// The entry that one error makes by itself. An error at the end of the
/// input points at no place: it is kept at line zero, column zero, marked as
/// being at the end, and got `<<nothing>>`.
pub open spec fn entry_of(error: ParseErrorView) -> DiagnosticView {
    match error.got {
        Some(word) => DiagnosticView {
            line: word.line,
            from: word.column_from,
            to: word.column_to,
            expected: seq![error.expected],
            got: word.display_text(),
            at_end: false,
            unlikely: error.unlikely,
        },
        None => DiagnosticView {
            line: 0,
            from: 0,
            to: 0,
            expected: seq![error.expected],
            got: "<<nothing>>"@,
            at_end: true,
            unlikely: error.unlikely,
        },
    }
}

/// Two entries point at the same place and the same text, or are both about
/// the end of the input.
pub open spec fn same_place(a: DiagnosticView, b: DiagnosticView) -> bool {
    a.line == b.line && a.from == b.from && a.to == b.to && a.got == b.got && a.at_end
        == b.at_end
}

/// `a` is shown before `b`: it is on an earlier line, or on the same line
/// and starts further right, or starts at the same column and ends earlier.
pub open spec fn shown_before(a: DiagnosticView, b: DiagnosticView) -> bool {
    a.line < b.line || (a.line == b.line && (a.from > b.from || (a.from == b.from && a.to < b.to)))
}

/// The entries are in the order in which they are shown.
pub open spec fn in_order(entries: Seq<DiagnosticView>) -> bool {
    forall|i: int, j: int| 0 <= i < j < entries.len() ==> !shown_before(entries[j], entries[i])
}

/// The first position from `at` on whose entry points at the same place as
/// `new`.
pub open spec fn find_same(entries: Seq<DiagnosticView>, new: DiagnosticView, at: int) -> Option<
    int,
>
    decreases entries.len() - at,
{
    if at < 0 || at >= entries.len() {
        None
    } else if same_place(entries[at], new) {
        Some(at)
    } else {
        find_same(entries, new, at + 1)
    }
}

/// The first position from `at` on whose entry is shown after `new`, or the
/// number of entries.
pub open spec fn slot(entries: Seq<DiagnosticView>, new: DiagnosticView, at: int) -> int
    decreases entries.len() - at,
{
    if at < 0 || at >= entries.len() {
        entries.len() as int
    } else if shown_before(new, entries[at]) {
        at
    } else {
        slot(entries, new, at + 1)
    }
}

/// An entry with one more error that points at its place: what the error
/// expected is added unless it is named there already, and the entry stays
/// unlikely only if the error is unlikely too.
pub open spec fn merged(entry: DiagnosticView, error: ParseErrorView) -> DiagnosticView {
    DiagnosticView {
        expected: if entry.expected.contains(error.expected) {
            entry.expected
        } else {
            entry.expected.push(error.expected)
        },
        unlikely: entry.unlikely && error.unlikely,
        ..entry
    }
}

/// The entries with one more error taken in. If an entry points at the same
/// place, the error is merged into it. Else the error becomes an entry of
/// its own, behind all entries that are not shown after it.
pub open spec fn with_error(entries: Seq<DiagnosticView>, error: ParseErrorView) -> Seq<
    DiagnosticView,
> {
    let new = entry_of(error);
    match find_same(entries, new, 0) {
        Some(i) => entries.update(i, merged(entries[i], error)),
        None => entries.insert(slot(entries, new, 0), new),
    }
}

/// The entries with a run of errors taken in, in order.
pub open spec fn with_errors(entries: Seq<DiagnosticView>, errors: Seq<ParseErrorView>) -> Seq<
    DiagnosticView,
>
    decreases errors.len(),
{
    if errors.len() == 0 {
        entries
    } else {
        with_error(with_errors(entries, errors.drop_last()), errors.last())
    }
}

proof fn lemma_find_same(entries: Seq<DiagnosticView>, new: DiagnosticView, at: int)
    requires
        0 <= at <= entries.len(),
    ensures
        match find_same(entries, new, at) {
            Some(i) => at <= i < entries.len() && same_place(entries[i], new),
            None => forall|k: int| at <= k < entries.len() ==> !same_place(entries[k], new),
        },
    decreases entries.len() - at,
{
    if at < entries.len() && !same_place(entries[at], new) {
        lemma_find_same(entries, new, at + 1);
    }
}

proof fn lemma_slot(entries: Seq<DiagnosticView>, new: DiagnosticView, at: int)
    requires
        0 <= at <= entries.len(),
    ensures
        at <= slot(entries, new, at) <= entries.len(),
        forall|k: int| at <= k < slot(entries, new, at) ==> !shown_before(new, entries[k]),
        slot(entries, new, at) < entries.len() ==> shown_before(
            new,
            entries[slot(entries, new, at)],
        ),
    decreases entries.len() - at,
{
    if at < entries.len() && !shown_before(new, entries[at]) {
        lemma_slot(entries, new, at + 1);
    }
}

/// Taking in an error keeps the entries in the order in which they are
/// shown.
pub proof fn lemma_with_error_in_order(entries: Seq<DiagnosticView>, error: ParseErrorView)
    requires
        in_order(entries),
    ensures
        in_order(with_error(entries, error)),
{
    let new = entry_of(error);
    lemma_find_same(entries, new, 0);
    lemma_slot(entries, new, 0);
    let after = with_error(entries, error);
    match find_same(entries, new, 0) {
        Some(at) => {
            assert forall|i: int, j: int| 0 <= i < j < after.len() implies !shown_before(
                after[j],
                after[i],
            ) by {
                assert(!shown_before(entries[j], entries[i]));
            }
        },
        None => {
            let at = slot(entries, new, 0);
            assert forall|i: int, j: int| 0 <= i < j < after.len() implies !shown_before(
                after[j],
                after[i],
            ) by {
                if j < at {
                    assert(!shown_before(entries[j], entries[i]));
                } else if j == at {
                    assert(!shown_before(new, entries[i]));
                } else if i < at {
                    assert(!shown_before(entries[j - 1], entries[i]));
                } else if i == at {
                    if at < j - 1 {
                        assert(!shown_before(entries[j - 1], entries[at]));
                    }
                    assert(shown_before(new, entries[at]));
                } else {
                    assert(!shown_before(entries[j - 1], entries[i - 1]));
                }
            }
        },
    }
}

/// No two entries point at the same place.
pub open spec fn places_distinct(entries: Seq<DiagnosticView>) -> bool {
    forall|i: int, j: int|
        0 <= i < j < entries.len() ==> !same_place(#[trigger] entries[i], #[trigger] entries[j])
}

/// Taking in an error never makes a second entry for a place.
pub proof fn lemma_with_error_places_distinct(entries: Seq<DiagnosticView>, error: ParseErrorView)
    requires
        places_distinct(entries),
    ensures
        places_distinct(with_error(entries, error)),
{
    let new = entry_of(error);
    lemma_find_same(entries, new, 0);
    lemma_slot(entries, new, 0);
    let after = with_error(entries, error);
    match find_same(entries, new, 0) {
        Some(at) => {
            assert forall|i: int, j: int| 0 <= i < j < after.len() implies !same_place(
                #[trigger] after[i],
                #[trigger] after[j],
            ) by {
                assert(!same_place(entries[i], entries[j]));
            }
        },
        None => {
            let at = slot(entries, new, 0);
            assert forall|i: int, j: int| 0 <= i < j < after.len() implies !same_place(
                #[trigger] after[i],
                #[trigger] after[j],
            ) by {
                let a = if i < at {
                    i
                } else {
                    i - 1
                };
                let b = if j < at {
                    j
                } else {
                    j - 1
                };
                if i == at {
                    assert(!same_place(entries[b], new));
                } else if j == at {
                    assert(!same_place(entries[a], new));
                } else {
                    assert(!same_place(entries[a], entries[b]));
                }
            }
        },
    }
}

/// Errors taken in one after the other, from nothing, give one entry for
/// each place, in the order in which the entries are shown.
pub proof fn lemma_gathered(errors: Seq<ParseErrorView>)
    ensures
        places_distinct(with_errors(Seq::empty(), errors)),
        in_order(with_errors(Seq::empty(), errors)),
    decreases errors.len(),
{
    if errors.len() > 0 {
        lemma_gathered(errors.drop_last());
        lemma_with_error_places_distinct(
            with_errors(Seq::empty(), errors.drop_last()),
            errors.last(),
        );
        lemma_with_error_in_order(with_errors(Seq::empty(), errors.drop_last()), errors.last());
    }
}

/// Taking in a run of errors keeps the entries in the order in which they
/// are shown.
pub proof fn lemma_with_errors_in_order(entries: Seq<DiagnosticView>, errors: Seq<ParseErrorView>)
    requires
        in_order(entries),
    ensures
        in_order(with_errors(entries, errors)),
    decreases errors.len(),
{
    if errors.len() > 0 {
        lemma_with_errors_in_order(entries, errors.drop_last());
        lemma_with_error_in_order(with_errors(entries, errors.drop_last()), errors.last());
    }
}

/// The texts joined, with `between` between each two.
pub open spec fn joined(texts: Seq<Seq<char>>, between: Seq<char>) -> Seq<char>
    decreases texts.len(),
{
    if texts.len() == 0 {
        Seq::empty()
    } else if texts.len() == 1 {
        texts[0]
    } else {
        joined(texts.drop_last(), between) + between + texts.last()
    }
}

/// The message of an entry: `Expected A or B but got C`.
pub open spec fn message_of(entry: DiagnosticView) -> Seq<char> {
    "Expected "@ + joined(entry.expected, " or "@) + " but got "@ + entry.got
}

/// The lines of a text from the one that starts at `at` on, each without
/// its line ending.
pub open spec fn lines_from(text: Seq<char>, at: int) -> Seq<Seq<char>>
    decreases text.len() - at,
{
    if at < 0 || at >= text.len() {
        Seq::empty()
    } else {
        proof {
            lemma_line_end(text, at);
        }
        seq![text_line(text, at)] + lines_from(text, next_line(text, at))
    }
}

/// What is shown for one entry.
#[derive(Debug, PartialEq, Eq)]
pub struct ReportEntry {
    /// The line of the source that the entry is about.
    pub line: usize,
    /// The text of that line. There is none for an entry about the end of
    /// the input, and for a line that the source does not have.
    pub source: Option<String>,
    /// The column under which the mark starts.
    pub indent: usize,
    /// The width of the mark, at least one.
    pub width: usize,
    pub message: String,
    /// The entry is about the end of the input; `line`, `indent` and `width`
    /// then point at no place.
    pub at_end: bool,
}

/// The mathematical value of a `ReportEntry`.
pub ghost struct ReportEntryView {
    pub line: nat,
    pub source: Option<Seq<char>>,
    pub indent: nat,
    pub width: nat,
    pub message: Seq<char>,
    pub at_end: bool,
}

impl View for ReportEntry {
    type V = ReportEntryView;

    open spec fn view(&self) -> ReportEntryView {
        ReportEntryView {
            line: self.line as nat,
            source: match self.source {
                Some(text) => Some(text@),
                None => None,
            },
            indent: self.indent as nat,
            width: self.width as nat,
            message: self.message@,
            at_end: self.at_end,
        }
    }
}

/// The entries that are shown: all of them if `verbose`, else those that
/// are not made of unlikely errors only.
pub open spec fn visible(entries: Seq<DiagnosticView>, verbose: bool) -> Seq<DiagnosticView>
    decreases entries.len(),
{
    if entries.len() == 0 {
        Seq::empty()
    } else if verbose || !entries.last().unlikely {
        visible(entries.drop_last(), verbose).push(entries.last())
    } else {
        visible(entries.drop_last(), verbose)
    }
}

/// What is shown for each of a list of entries.
pub open spec fn shown_all(lines: Seq<Seq<char>>, entries: Seq<DiagnosticView>) -> Seq<
    ReportEntryView,
> {
    entries.map_values(|entry: DiagnosticView| shown(lines, entry))
}

/// The values of a list of report entries.
pub open spec fn report_views(entries: Seq<ReportEntry>) -> Seq<ReportEntryView> {
    entries.map_values(|entry: ReportEntry| entry@)
}

/// What is shown for an entry, given the lines of the source.
pub open spec fn shown(lines: Seq<Seq<char>>, entry: DiagnosticView) -> ReportEntryView {
    ReportEntryView {
        line: entry.line,
        source: if !entry.at_end && entry.line < lines.len() {
            Some(lines[entry.line as int])
        } else {
            None
        },
        indent: entry.from,
        width: if entry.to > entry.from {
            (entry.to - entry.from) as nat
        } else {
            1
        },
        message: message_of(entry),
        at_end: entry.at_end,
    }
}

fn message(entry: &Diagnostic) -> (res: String)
    ensures
        res@ == message_of(entry@),
{
    let mut res = String::from_str("Expected ");
    let ghost head = res@;
    let mut i: usize = 0;
    assert(text_views(entry.expected@).take(0) =~= Seq::<Seq<char>>::empty());
    assert(res@ =~= head + joined(text_views(entry.expected@).take(0), " or "@));
    while i < entry.expected.len()
        invariant
            i <= entry.expected@.len(),
            head == "Expected "@,
            res@ == head + joined(text_views(entry.expected@).take(i as int), " or "@),
        decreases entry.expected.len() - i,
    {
        let ghost before = text_views(entry.expected@).take(i as int);
        let ghost after = text_views(entry.expected@).take(i + 1);
        proof {
            assert(after.drop_last() =~= before);
            assert(after.last() == entry.expected@[i as int]@);
        }
        if i > 0 {
            res.append(" or ");
        } else {
            assert(before =~= Seq::<Seq<char>>::empty());
        }
        res.append(entry.expected[i].as_str());
        i += 1;
        assert(res@ =~= head + joined(after, " or "@));
    }
    assert(text_views(entry.expected@).take(i as int) =~= text_views(entry.expected@));
    res.append(" but got ");
    res.append(entry.got.as_str());
    assert(res@ =~= message_of(entry@));
    res
}

/// The lines of a source text and the entries gathered for it.
///
/// The entries are held in one list, in the order in which they are shown,
/// so that showing them needs no sorting and does not depend on the order
/// in which a hash map would be walked.
pub struct ErrorFile {
    lines: Vec<String>,
    errors: Vec<Diagnostic>,
}

impl ErrorFile {
    /// The lines of the source.
    pub closed spec fn lines(&self) -> Seq<Seq<char>> {
        text_views(self.lines@)
    }

    /// The entries gathered so far.
    pub closed spec fn entries(&self) -> Seq<DiagnosticView> {
        diagnostic_views(self.errors@)
    }

    /// Nothing gathered yet for the source `code`.
    pub fn new(code: &str) -> (res: Self)
        ensures
            res.lines() == lines_from(code@, 0),
            res.entries() == Seq::<DiagnosticView>::empty(),
    {
        let chars = chars_of(code);
        let mut lines: Vec<String> = Vec::new();
        let mut at: usize = 0;
        let ghost all = lines_from(code@, 0);
        assert(all =~= text_views(lines@) + all);
        while at < chars.len()
            invariant
                chars@ == code@,
                at <= chars@.len(),
                all == text_views(lines@) + lines_from(code@, at as int),
            decreases chars@.len() - at,
        {
            let (end, next) = line_at(&chars, at);
            let ghost so_far = lines@;
            let line = text_of(&chars, at, end);
            lines.push(line);
            assert(text_views(lines@) =~= text_views(so_far).push(text_line(code@, at as int)));
            at = next;
            assert(all =~= text_views(lines@) + lines_from(code@, at as int));
        }
        assert(all =~= text_views(lines@));
        let errors: Vec<Diagnostic> = Vec::new();
        assert(diagnostic_views(errors@) =~= Seq::<DiagnosticView>::empty());
        ErrorFile { lines, errors }
    }

    /// Takes in one error.
    pub fn insert(&mut self, new: ParseError)
        ensures
            final(self).lines() == old(self).lines(),
            final(self).entries() == with_error(old(self).entries(), new@),
    {
        let ghost entries = self.entries();
        let ParseError { expected, got, unlikely } = new;
        let (line, from, to, got, at_end) = match got {
            Some(word) => (
                word.line,
                word.column_from,
                word.column_to,
                word.display_text(),
                false,
            ),
            None => (0, 0, 0, String::from_str("<<nothing>>"), true),
        };
        let ghost place = entry_of(new@);
        assert(place.line == line && place.from == from && place.to == to && place.got == got@
            && place.at_end == at_end);
        let mut i: usize = 0;
        while i < self.errors.len()
            invariant
                i <= self.errors@.len(),
                entries == diagnostic_views(self.errors@),
                entries == old(self).entries(),
                self.lines() == old(self).lines(),
                place == entry_of(new@),
                expected@ == new@.expected,
                unlikely == new@.unlikely,
                place.line == line && place.from == from && place.to == to && place.got == got@
                    && place.at_end == at_end,
                find_same(entries, place, 0) == find_same(entries, place, i as int),
            decreases self.errors.len() - i,
        {
            let entry = &self.errors[i];
            assert(entries[i as int] == entry@);
            if entry.line == line && entry.from == from && entry.to == to && entry.at_end
                == at_end && same_text(entry.got.as_str(), got.as_str()) {
                let mut known = false;
                let mut k: usize = 0;
                while k < entry.expected.len()
                    invariant
                        k <= entry.expected@.len(),
                        known == exists|n: int|
                            0 <= n < k && (#[trigger] entry.expected@[n])@ == expected@,
                    decreases entry.expected.len() - k,
                {
                    if same_text(entry.expected[k].as_str(), expected.as_str()) {
                        known = true;
                    }
                    k += 1;
                }
                proof {
                    let names = text_views(entry.expected@);
                    if known {
                        let n = choose|n: int|
                            0 <= n < entry.expected@.len() && (#[trigger] entry.expected@[n])@
                                == expected@;
                        assert(names[n] == expected@);
                    } else {
                        assert forall|n: int| 0 <= n < names.len() implies names[n]
                            != expected@ by {
                            assert(entry.expected@[n]@ == names[n]);
                        }
                    }
                    assert(known == entries[i as int].expected.contains(expected@));
                }
                assert(same_place(entries[i as int], place));
                assert(find_same(entries, place, i as int) == Some(i as int));
                let ghost before = self.errors@;
                let ghost name = expected@;
                let mut entry = self.errors.remove(i);
                let ghost names = entry.expected@;
                if !known {
                    entry.expected.push(expected);
                    assert(text_views(entry.expected@) =~= text_views(names).push(name));
                }
                entry.unlikely = entry.unlikely && unlikely;
                let ghost changed = entry@;
                self.errors.insert(i, entry);
                assert(self.errors@ =~= before.update(i as int, self.errors@[i as int]));
                assert(changed == merged(entries[i as int], new@));
                assert(diagnostic_views(self.errors@) =~= entries.update(i as int, changed));
                return ;
            }
            i += 1;
        }
        let mut names: Vec<String> = Vec::new();
        names.push(expected);
        let entry = Diagnostic { line, from, to, expected: names, got, at_end, unlikely };
        assert(text_views(entry.expected@) =~= seq![new@.expected]);
        assert(entry@ == place);
        let mut at: usize = 0;
        while at < self.errors.len() && !shows_before(&entry, &self.errors[at])
            invariant
                at <= self.errors@.len(),
                entries == diagnostic_views(self.errors@),
                entries == old(self).entries(),
                self.lines() == old(self).lines(),
                entry@ == place,
                slot(entries, place, 0) == slot(entries, place, at as int),
            decreases self.errors.len() - at,
        {
            at += 1;
        }
        self.errors.insert(at, entry);
        assert(diagnostic_views(self.errors@) =~= entries.insert(at as int, place));
    }

    /// Takes in a run of errors, in order.
    pub fn insert_all(&mut self, errors: Vec<ParseError>)
        ensures
            final(self).lines() == old(self).lines(),
            final(self).entries() == with_errors(old(self).entries(), error_views(errors@)),
    {
        let ghost all = error_views(errors@);
        let mut i: usize = 0;
        assert(all.take(0) =~= Seq::<ParseErrorView>::empty());
        while i < errors.len()
            invariant
                i <= errors@.len(),
                all == error_views(errors@),
                self.lines() == old(self).lines(),
                self.entries() == with_errors(old(self).entries(), all.take(i as int)),
            decreases errors.len() - i,
        {
            let error = errors[i].clone();
            assert(error@ == all[i as int]);
            self.insert(error);
            i += 1;
            assert(all.take(i as int).drop_last() =~= all.take(i - 1));
        }
        assert(all.take(i as int) =~= all);
    }

    /// What is shown: one entry for each place, in order. Entries made of
    /// unlikely errors only are left out unless `verbose`.
    pub fn report(&self, verbose: bool) -> (res: Vec<ReportEntry>)
        ensures
            report_views(res@) == shown_all(self.lines(), visible(self.entries(), verbose)),
    {
        let mut res: Vec<ReportEntry> = Vec::new();
        let mut i: usize = 0;
        assert(self.entries().take(0) =~= Seq::<DiagnosticView>::empty());
        assert(report_views(res@) =~= shown_all(
            self.lines(),
            visible(self.entries().take(0), verbose),
        ));
        while i < self.errors.len()
            invariant
                i <= self.errors@.len(),
                report_views(res@) == shown_all(
                    self.lines(),
                    visible(self.entries().take(i as int), verbose),
                ),
            decreases self.errors.len() - i,
        {
            let entry = &self.errors[i];
            let ghost so_far = res@;
            let ghost before = visible(self.entries().take(i as int), verbose);
            proof {
                assert(self.entries()[i as int] == entry@);
                assert(self.entries().take(i + 1).drop_last() =~= self.entries().take(i as int));
                assert(self.entries().take(i + 1).last() == entry@);
            }
            if verbose || !entry.unlikely {
                let source = if !entry.at_end && entry.line < self.lines.len() {
                    assert(self.lines()[entry.line as int] == self.lines@[entry.line as int]@);
                    Some(self.lines[entry.line].clone())
                } else {
                    None
                };
                let width = if entry.to > entry.from {
                    entry.to - entry.from
                } else {
                    1
                };
                let shown_entry = ReportEntry {
                    line: entry.line,
                    source,
                    indent: entry.from,
                    width,
                    message: message(entry),
                    at_end: entry.at_end,
                };
                assert(shown_entry@ == shown(self.lines(), entry@));
                res.push(shown_entry);
                assert(report_views(res@) =~= report_views(so_far).push(
                    shown(self.lines(), entry@),
                ));
                assert(shown_all(self.lines(), before.push(entry@)) =~= shown_all(
                    self.lines(),
                    before,
                ).push(shown(self.lines(), entry@)));
            }
            i += 1;
        }
        assert(self.entries().take(i as int) =~= self.entries());
        res
    }
}

fn shows_before(a: &Diagnostic, b: &Diagnostic) -> (res: bool)
    ensures
        res == shown_before(a@, b@),
{
    a.line < b.line || (a.line == b.line && (a.from > b.from || (a.from == b.from && a.to
        < b.to)))
}

/// Gathers the errors of a source text for display: one entry for each
/// place, in the order in which they are shown. Entries made of unlikely
/// errors only are left out unless `verbose`.
pub fn show_errors(code: &str, errors: Vec<ParseError>, verbose: bool) -> (res: Vec<ReportEntry>)
    ensures
        report_views(res@) == shown_all(
            lines_from(code@, 0),
            visible(with_errors(Seq::empty(), error_views(errors@)), verbose),
        ),
{
    let mut error_file = ErrorFile::new(code);
    error_file.insert_all(errors);
    error_file.report(verbose)
}

} // verus!
