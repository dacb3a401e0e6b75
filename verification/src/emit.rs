//! The layout of error and warning messages: a headline, the place in the source
//! file, and the offending lines of code with markers under or over them. The
//! result is a list of lines, each a list of styled pieces of text, for a terminal
//! to print.

use vstd::prelude::*;
use vstd::string::StrSliceExecFns;
use vstd::string::StringExecFns;
use crate::location::{Range, SourceFileIdentifier, identifier_text, file_type_text};
use crate::diagnostic::{Diagnostic, ErrorMessage, HelpMessage, HelpType, Severity};
use crate::source_file::{PackageFileSystem, SourceFile, SourceFileLoadError};
use crate::text::{decimal, decimal_len, repeat, text_lines, push_decimal, push_repeated, chars_of, line_spans};

verus! {

/// How a piece of text is shown; the colours are the bright ones.
#[derive(Debug, Clone, Copy, PartialEq, Eq, Structural)]
pub enum Style {
    Plain,
    Red,
    Yellow,
    Cyan,
    White,
}

/// A piece of text in one style.
#[derive(Debug)]
pub struct Span {
    pub text: String,
    pub style: Style,
}

/// A line as pieces of text and their styles.
pub open spec fn line_view(line: Seq<Span>) -> Seq<(Seq<char>, Style)> {
    line.map_values(|s: Span| (s.text@, s.style))
}

/// Lines as pieces of text and their styles.
pub open spec fn lines_view(lines: Seq<Vec<Span>>) -> Seq<Seq<(Seq<char>, Style)>> {
    lines.map_values(|l: Vec<Span>| line_view(l@))
}

pub open spec fn plain(t: Seq<char>) -> (Seq<char>, Style) {
    (t, Style::Plain)
}

/// The left margin of a snippet line: `w` spaces, a space and the bar.
pub open spec fn gutter(w: nat) -> Seq<(Seq<char>, Style)> {
    seq![plain(repeat(' ', w) + seq![' ']), (seq!['|'], Style::Cyan)]
}

/// A line of markers: the margin, then `indent` spaces and the markers.
pub open spec fn marker_line(w: nat, indent: nat, marks: Seq<char>, st: Style) -> Seq<(Seq<char>, Style)> {
    gutter(w) + seq![plain(seq![' '] + repeat(' ', indent)), (marks, st)]
}

/// A line of code with its (one-based) number right-aligned in `w` columns.
pub open spec fn numbered_line(w: nat, number: nat, text: Seq<char>) -> Seq<(Seq<char>, Style)> {
    seq![
        plain(repeat(' ', (w - decimal_len(number)) as nat)),
        (decimal(number), Style::Cyan),
        plain(seq![' ']),
        (seq!['|'], Style::Cyan),
        plain(seq![' '] + text),
    ]
}

/// What is shown for the line of code with index `k`: an overline of `v` from the
/// start column to the end of the line where a span of several lines starts, the
/// line itself, and where the span ends an underline of `^` (under the span on a
/// single line, else from the start of the line).
pub open spec fn snippet_line(r: Range, w: nat, lines: Seq<Seq<char>>, k: int, st: Style) -> Seq<Seq<(Seq<char>, Style)>> {
    let sl = r.start.line as int;
    let el = r.end.line as int;
    let sc = r.start.col as nat;
    let ec = r.end.col as nat;
    let line = lines[k];
    let over = if k == sl && sl != el {
        seq![marker_line(w, sc, repeat('v', (line.len() - sc) as nat), st)]
    } else {
        Seq::empty()
    };
    let under = if k == el {
        if sl == el {
            seq![marker_line(w, sc, repeat('^', (ec - sc) as nat), st)]
        } else {
            seq![marker_line(w, 0, repeat('^', ec), st)]
        }
    } else {
        Seq::empty()
    };
    over + seq![numbered_line(w, (k + 1) as nat, line)] + under
}

/// What is shown for the lines of code with indices `a` up to `b`.
pub open spec fn snippet_lines(r: Range, w: nat, lines: Seq<Seq<char>>, a: int, b: int, st: Style) -> Seq<Seq<(Seq<char>, Style)>>
    decreases b - a,
{
    if b <= a {
        Seq::empty()
    } else {
        snippet_lines(r, w, lines, a, b - 1, st) + snippet_line(r, w, lines, b - 1, st)
    }
}

/// The last line of code shown for a span, plus one: past the span's last line or
/// the file's.
pub open spec fn snippet_stop(r: Range, lines: Seq<Seq<char>>) -> int {
    if r.end.line + 1 < lines.len() { r.end.line + 1 } else { lines.len() as int }
}

/// The lines of code of a span, between two empty margin lines.
pub open spec fn snippet(r: Range, w: nat, lines: Seq<Seq<char>>, st: Style) -> Seq<Seq<(Seq<char>, Style)>> {
    seq![gutter(w)] + snippet_lines(r, w, lines, r.start.line as int, snippet_stop(r, lines), st) + seq![gutter(w)]
}

/// The width of the line-number column for a span: the digits of its last line number.
pub open spec fn number_width(r: Range) -> nat {
    decimal_len(if r.start.line >= r.end.line { r.start.line + 1 } else { r.end.line + 1 } as nat)
}

/// The line that names the file and the start of the span.
pub open spec fn place_line(id: SourceFileIdentifier, r: Range, w: nat) -> Seq<(Seq<char>, Style)> {
    seq![
        plain(repeat(' ', w)),
        (seq!['-', '-', '>'], Style::Cyan),
        plain(seq![' '] + identifier_text(id) + seq![' ', '('] + file_type_text(id.file_type)
            + seq![')', ' ', '@', ' '] + decimal((r.start.line + 1) as nat) + seq![':']
            + decimal((r.start.col + 1) as nat)),
    ]
}

/// The text shown where a file could not be read.
pub open spec fn unreadable_text() -> Seq<char> {
    seq!['c', 'o', 'u', 'l', 'd', ' ', 'n', 'o', 't', ' ', 'r', 'e', 'a', 'd', ' ', 'f', 'i', 'l', 'e']
}

/// What is shown for a diagnostic, given the loaded entry of its file: the place,
/// then the lines of code, or a notice that the file could not be read. Without a
/// span, only the file is named.
pub open spec fn diagnostic_lines(
    file: Option<Result<SourceFile, SourceFileLoadError>>,
    d: Diagnostic,
    st: Style,
) -> Seq<Seq<(Seq<char>, Style)>> {
    match d.range {
        None => seq![seq![(seq!['-', '-', '>'], Style::Cyan), plain(seq![' '] + identifier_text(d.source_file))]],
        Some(r) => {
            let w = number_width(r);
            seq![place_line(d.source_file, r, w)] + match file {
                Some(Ok(f)) => snippet(r, w, text_lines(f@), st),
                _ => seq![seq![(unreadable_text(), Style::Red)]],
            }
        },
    }
}

/// The inputs on which the layout of a diagnostic is defined: line and column
/// numbers that can be shown one-based, a span that does not end before it starts,
/// and markers that do not run backwards.
pub open spec fn renderable(file: Option<Result<SourceFile, SourceFileLoadError>>, d: Diagnostic) -> bool {
    match d.range {
        None => true,
        Some(r) => {
            &&& r.start.line < u32::MAX
            &&& r.start.col < u32::MAX
            &&& r.end.line < u32::MAX
            &&& match file {
                Some(Ok(f)) => {
                    let lines = text_lines(f@);
                    &&& r.start.line <= r.end.line
                    &&& (r.start.line != r.end.line && r.start.line < lines.len())
                        ==> r.start.col <= lines[r.start.line as int].len()
                    &&& (r.start.line == r.end.line && r.end.line < lines.len()) ==> r.start.col <= r.end.col
                },
                _ => true,
            }
        },
    }
}

/// The headline of a message.
pub open spec fn headline(m: ErrorMessage) -> Seq<(Seq<char>, Style)> {
    match m.severity {
        Severity::Error => seq![
            (seq!['e', 'r', 'r', 'o', 'r'], Style::Red),
            (seq![':'], Style::White),
            plain(seq![' ']),
            (m.message@, Style::White),
        ],
        Severity::Warning => seq![
            (seq!['w', 'a', 'r', 'n', 'i', 'n', 'g'], Style::Yellow),
            plain(seq![':', ' '] + m.message@),
        ],
    }
}

/// The style of the markers of a message.
pub open spec fn marker_style(s: Severity) -> Style {
    match s {
        Severity::Error => Style::Red,
        Severity::Warning => Style::Yellow,
    }
}

/// The first line of a help message.
pub open spec fn help_headline(h: HelpMessage) -> Seq<(Seq<char>, Style)> {
    seq![
        (match h.help_type {
            HelpType::Help => seq!['h', 'e', 'l', 'p', ':'],
            HelpType::Note => seq!['n', 'o', 't', 'e', ':'],
        }, Style::White),
        plain(seq![' ']),
        (h.message@, Style::White),
    ]
}

/// What is shown for the help messages of `helps`, in order.
pub open spec fn help_lines(fs: PackageFileSystem, helps: Seq<HelpMessage>) -> Seq<Seq<(Seq<char>, Style)>>
    decreases helps.len(),
{
    if helps.len() == 0 {
        Seq::empty()
    } else {
        let h = helps.last();
        help_lines(fs, helps.drop_last()) + seq![help_headline(h)]
            + diagnostic_lines(fs.file(h.diagnostic.source_file), h.diagnostic, Style::Cyan)
    }
}

/// What is shown for a message.
pub open spec fn message_lines(fs: PackageFileSystem, m: ErrorMessage) -> Seq<Seq<(Seq<char>, Style)>> {
    seq![headline(m)] + diagnostic_lines(fs.file(m.diagnostic.source_file), m.diagnostic, marker_style(m.severity))
        + help_lines(fs, m.help@)
}

proof fn lemma_help_lines_hold(fs: PackageFileSystem, helps: Seq<HelpMessage>, i: int)
    requires
        0 <= i < helps.len(),
    ensures
        exists|k: int| 0 <= k < help_lines(fs, helps).len() && #[trigger] help_lines(fs, helps)[k] == help_headline(helps[i]),
    decreases helps.len(),
{
    let before = help_lines(fs, helps.drop_last());
    let h = helps.last();
    let all = help_lines(fs, helps);
    if i == helps.len() - 1 {
        assert(all[before.len() as int] == help_headline(h));
    } else {
        lemma_help_lines_hold(fs, helps.drop_last(), i);
        let k = choose|k: int| 0 <= k < before.len() && #[trigger] before[k] == help_headline(helps.drop_last()[i]);
        assert(all[k] == before[k]);
    }
}

/// Every help message of a message is shown under it with a headline that names its
/// kind: the text `help:` for a help and `note:` for a note, then a space and the
/// help's own message.
pub proof fn lemma_help_headline_names_kind(fs: PackageFileSystem, m: ErrorMessage, i: int)
    requires
        0 <= i < m.help@.len(),
    ensures
        exists|k: int| 0 <= k < message_lines(fs, m).len() && #[trigger] message_lines(fs, m)[k] == seq![
            (
                if m.help@[i].help_type is Help { seq!['h', 'e', 'l', 'p', ':'] } else { seq!['n', 'o', 't', 'e', ':'] },
                Style::White,
            ),
            (seq![' '], Style::Plain),
            (m.help@[i].message@, Style::White),
        ],
{
    let h = m.help@[i];
    lemma_help_lines_hold(fs, m.help@, i);
    let hl = help_lines(fs, m.help@);
    let k = choose|k: int| 0 <= k < hl.len() && #[trigger] hl[k] == help_headline(h);
    let pre = seq![headline(m)] + diagnostic_lines(fs.file(m.diagnostic.source_file), m.diagnostic, marker_style(m.severity));
    let all = message_lines(fs, m);
    assert(all == pre + hl);
    assert(all[pre.len() + k] == hl[k]);
    let want = seq![
        (
            if h.help_type is Help { seq!['h', 'e', 'l', 'p', ':'] } else { seq!['n', 'o', 't', 'e', ':'] },
            Style::White,
        ),
        (seq![' '], Style::Plain),
        (h.message@, Style::White),
    ];
    assert(help_headline(h) =~= want);
    assert(all[pre.len() + k] == want);
}

/// The layout of a message is defined for its diagnostic and those of its helps.
pub open spec fn message_renderable(fs: PackageFileSystem, m: ErrorMessage) -> bool {
    &&& renderable(fs.file(m.diagnostic.source_file), m.diagnostic)
    &&& forall|i: int| 0 <= i < m.help@.len()
        ==> renderable(fs.file((#[trigger] m.help@[i]).diagnostic.source_file), m.help@[i].diagnostic)
}

fn span(text: String, style: Style) -> (res: Span)
    ensures
        res.text@ == text@,
        res.style == style,
{
    Span { text, style }
}

fn literal(text: &str, style: Style) -> (res: Span)
    ensures
        res.text@ == text@,
        res.style == style,
{
    Span { text: String::from_str(text), style }
}

fn spaces(n: u64) -> (res: String)
    ensures
        res@ == repeat(' ', n as nat),
{
    let mut out = String::new();
    let sp = " ";
    proof { reveal_strlit(" "); }
    push_repeated(&mut out, sp, n);
    assert(out@ =~= repeat(' ', n as nat));
    out
}

fn gutter_line(w: u64) -> (res: Vec<Span>)
    ensures
        line_view(res@) == gutter(w as nat),
{
    let mut first = spaces(w);
    let sp = " ";
    let bar = "|";
    proof {
        reveal_strlit(" ");
        reveal_strlit("|");
    }
    first.append(sp);
    let mut res: Vec<Span> = Vec::new();
    res.push(span(first, Style::Plain));
    res.push(literal(bar, Style::Cyan));
    proof {
        assert(bar@ =~= seq!['|']);
        assert(res@[0].text@ =~= repeat(' ', w as nat) + seq![' ']);
        assert(line_view(res@)[0] == plain(repeat(' ', w as nat) + seq![' ']));
        assert(line_view(res@)[1] == (seq!['|'], Style::Cyan));
        assert(line_view(res@) =~= gutter(w as nat));
    }
    res
}

fn marker(w: u64, indent: u64, mark: &str, count: u64, st: Style) -> (res: Vec<Span>)
    requires
        mark@.len() == 1,
    ensures
        line_view(res@) == marker_line(w as nat, indent as nat, repeat(mark@[0], count as nat), st),
{
    let mut res = gutter_line(w);
    let ghost g = res@;
    let mut pad = String::new();
    let sp = " ";
    proof { reveal_strlit(" "); }
    pad.append(sp);
    push_repeated(&mut pad, sp, indent);
    let mut marks = String::new();
    push_repeated(&mut marks, mark, count);
    res.push(span(pad, Style::Plain));
    res.push(span(marks, st));
    proof {
        assert(line_view(g) == gutter(w as nat));
        assert(pad@ =~= seq![' '] + repeat(' ', indent as nat));
        assert(marks@ =~= repeat(mark@[0], count as nat));
        assert(res@ =~= g.push(res@[g.len() as int]).push(res@[g.len() as int + 1]));
        assert(line_view(res@) =~= marker_line(w as nat, indent as nat, repeat(mark@[0], count as nat), st));
    }
    res
}

fn numbered(w: u64, number: u64, text: &str) -> (res: Vec<Span>)
    requires
        decimal_len(number as nat) <= w,
    ensures
        line_view(res@) == numbered_line(w as nat, number as nat, text@),
{
    let digits = crate::text::decimal_string(number);
    let len = digits.as_str().unicode_len();
    let sp = " ";
    let bar = "|";
    proof {
        reveal_strlit(" ");
        reveal_strlit("|");
    }
    let mut body = String::new();
    body.append(sp);
    body.append(text);
    let mut res: Vec<Span> = Vec::new();
    res.push(span(spaces(w - len as u64), Style::Plain));
    res.push(span(digits, Style::Cyan));
    res.push(literal(sp, Style::Plain));
    res.push(literal(bar, Style::Cyan));
    res.push(span(body, Style::Plain));
    proof {
        assert(bar@ =~= seq!['|']);
        assert(sp@ =~= seq![' ']);
        assert(body@ =~= seq![' '] + text@);
        let v = line_view(res@);
        assert(v[0] == plain(repeat(' ', (w - decimal_len(number as nat)) as nat)));
        assert(v[1] == (decimal(number as nat), Style::Cyan));
        assert(v[2] == plain(seq![' ']));
        assert(v[3] == (seq!['|'], Style::Cyan));
        assert(v[4] == plain(seq![' '] + text@));
        assert(v =~= numbered_line(w as nat, number as nat, text@));
    }
    res
}

/// More lines need no fewer digits.
pub proof fn lemma_decimal_len_monotone(a: nat, b: nat)
    requires
        a <= b,
    ensures
        decimal_len(a) <= decimal_len(b),
    decreases b,
{
    if b >= 10 {
        if a >= 10 {
            lemma_decimal_len_monotone(a / 10, b / 10);
        } else {
            lemma_decimal_len_positive(b / 10);
        }
    }
}

proof fn lemma_decimal_len_positive(n: nat)
    ensures
        decimal_len(n) >= 1,
    decreases n,
{
    if n >= 10 {
        lemma_decimal_len_positive(n / 10);
    }
}

/// The snippet lines of a span of the text `contents`.
fn snippet_rows(r: Range, w: u64, contents: &str, st: Style) -> (res: Vec<Vec<Span>>)
    requires
        w == number_width(r),
        r.start.line <= r.end.line < u32::MAX,
        (r.start.line != r.end.line && r.start.line < text_lines(contents@).len())
            ==> r.start.col <= text_lines(contents@)[r.start.line as int].len(),
        (r.start.line == r.end.line && r.end.line < text_lines(contents@).len()) ==> r.start.col <= r.end.col,
    ensures
        lines_view(res@) == snippet(r, w as nat, text_lines(contents@), st),
{
    let ghost lines = text_lines(contents@);
    let chars = chars_of(contents);
    let spans = line_spans(&chars);
    let n = spans.len();
    let sl: usize = r.start.line as usize;
    let el: usize = r.end.line as usize;
    let stop: usize = if el + 1 < n { el + 1 } else { n };
    assert(stop == snippet_stop(r, lines));
    let mut res: Vec<Vec<Span>> = Vec::new();
    res.push(gutter_line(w));
    let v = "v";
    let caret = "^";
    proof {
        reveal_strlit("v");
        reveal_strlit("^");
        assert(lines_view(res@) =~= seq![gutter(w as nat)]);
    }
    let mut k: usize = sl;
    while k < stop
        invariant
            sl == r.start.line,
            el == r.end.line,
            sl <= k,
            sl <= stop ==> k <= stop,
            stop < sl ==> k == sl,
            stop <= n,
            n == lines.len(),
            chars@ == contents@,
            lines == text_lines(contents@),
            w == number_width(r),
            r.start.line <= r.end.line < u32::MAX,
            stop == snippet_stop(r, lines),
            spans@.len() == n,
            forall|j: int| 0 <= j < spans@.len() ==> {
                &&& (#[trigger] spans@[j]).0 <= spans@[j].1 <= chars@.len()
                &&& chars@.subrange(spans@[j].0 as int, spans@[j].1 as int) == lines[j]
            },
            (r.start.line != r.end.line && r.start.line < lines.len())
                ==> r.start.col <= lines[r.start.line as int].len(),
            (r.start.line == r.end.line && r.end.line < lines.len()) ==> r.start.col <= r.end.col,
            v@ == seq!['v'],
            caret@ == seq!['^'],
            lines_view(res@) == seq![gutter(w as nat)] + snippet_lines(r, w as nat, lines, sl as int, k as int, st),
        decreases stop - k,
    {
        let (a, b) = spans[k];
        let text = contents.substring_char(a, b);
        let len: u64 = (b - a) as u64;
        let ghost before = lines_view(res@);
        let ghost mut added: Seq<Seq<(Seq<char>, Style)>> = Seq::empty();
        assert(text@ == lines[k as int]);
        if k == sl && sl != el {
            let row = marker(w, r.start.col as u64, v, len - r.start.col as u64, st);
            proof { added = added.push(line_view(row@)); }
            res.push(row);
        }
        proof {
            lemma_decimal_len_monotone((k + 1) as nat, (if r.start.line >= r.end.line { r.start.line + 1 } else { r.end.line + 1 }) as nat);
        }
        let row = numbered(w, (k + 1) as u64, text);
        proof { added = added.push(line_view(row@)); }
        res.push(row);
        if k == el {
            if sl == el {
                let row = marker(w, r.start.col as u64, caret, (r.end.col - r.start.col) as u64, st);
                proof { added = added.push(line_view(row@)); }
                res.push(row);
            } else {
                let row = marker(w, 0, caret, r.end.col as u64, st);
                proof { added = added.push(line_view(row@)); }
                res.push(row);
            }
        }
        proof {
            assert(added =~= snippet_line(r, w as nat, lines, k as int, st));
            assert(lines_view(res@) =~= before + added);
        }
        k = k + 1;
    }
    proof {
        if stop < sl {
            assert(snippet_lines(r, w as nat, lines, sl as int, stop as int, st) =~= Seq::empty());
            assert(snippet_lines(r, w as nat, lines, sl as int, k as int, st) =~= Seq::empty());
        } else {
            assert(k == stop);
        }
    }
    let ghost before = lines_view(res@);
    res.push(gutter_line(w));
    proof {
        assert(lines_view(res@) =~= before.push(gutter(w as nat)));
        assert(lines_view(res@) =~= snippet(r, w as nat, lines, st));
    }
    res
}

/// Lays out error and warning messages, taking the lines of code from the source
/// files loaded in a package's file system. Files that a message points into are
/// loaded before it is laid out; one that is not loaded counts as unreadable.
pub struct ErrorEmitter<'fs> {
    package_file_system: &'fs PackageFileSystem,
}

impl<'fs> ErrorEmitter<'fs> {
    /// The file system the lines of code come from.
    pub closed spec fn fs(&self) -> PackageFileSystem {
        *self.package_file_system
    }

    /// An emitter that reads from the given file system.
    pub fn new(package_file_system: &'fs PackageFileSystem) -> (res: ErrorEmitter<'fs>)
        ensures
            res.fs() == *package_file_system,
    {
        ErrorEmitter { package_file_system }
    }

    /// The place line of a span.
    fn place(id: &SourceFileIdentifier, r: Range, w: u64) -> (res: Vec<Span>)
        requires
            r.start.line < u32::MAX,
            r.start.col < u32::MAX,
        ensures
            line_view(res@) == place_line(*id, r, w as nat),
    {
        let arrow = "-->";
        let open = " (";
        let close = ") @ ";
        let colon = ":";
        let sp = " ";
        proof {
            reveal_strlit("-->");
            reveal_strlit(" (");
            reveal_strlit(") @ ");
            reveal_strlit(":");
            reveal_strlit(" ");
        }
        let mut text = String::new();
        text.append(sp);
        text.append(id.to_string().as_str());
        text.append(open);
        text.append(id.file_type.to_string().as_str());
        text.append(close);
        push_decimal(&mut text, (r.start.line + 1) as u64);
        text.append(colon);
        push_decimal(&mut text, (r.start.col + 1) as u64);
        let mut res: Vec<Span> = Vec::new();
        res.push(span(spaces(w), Style::Plain));
        res.push(literal(arrow, Style::Cyan));
        res.push(span(text, Style::Plain));
        proof {
            assert(arrow@ =~= seq!['-', '-', '>']);
            let v = line_view(res@);
            assert(v[1] == (seq!['-', '-', '>'], Style::Cyan));
            assert(v[2].0 =~= place_line(*id, r, w as nat)[2].0);
            assert(v =~= place_line(*id, r, w as nat));
        }
        res
    }

    /// The lines shown for a diagnostic, with markers in the given style. The file is
    /// taken from the cache as it stands: this function reads nothing from disk, so a
    /// file that has not been loaded yet is shown as one that could not be read; the
    /// caller loads the files of a diagnostic first (`PackageFileSystem::ensure_loaded`).
    pub fn print_message(&self, diagnostic: &Diagnostic, arrows: Style) -> (res: Vec<Vec<Span>>)
        requires
            renderable(self.fs().file(diagnostic.source_file), *diagnostic),
        ensures
            lines_view(res@) == diagnostic_lines(self.fs().file(diagnostic.source_file), *diagnostic, arrows),
    {
        let mut res: Vec<Vec<Span>> = Vec::new();
        match diagnostic.range {
            None => {
                let arrow = "-->";
                let sp = " ";
                proof {
                    reveal_strlit("-->");
                    reveal_strlit(" ");
                }
                let mut text = String::new();
                text.append(sp);
                text.append(diagnostic.source_file.to_string().as_str());
                let mut line: Vec<Span> = Vec::new();
                line.push(literal(arrow, Style::Cyan));
                line.push(span(text, Style::Plain));
                res.push(line);
                proof {
                    assert(arrow@ =~= seq!['-', '-', '>']);
                    assert(text@ =~= seq![' '] + identifier_text(diagnostic.source_file));
                    assert(line_view(line@)[0] == (seq!['-', '-', '>'], Style::Cyan));
                    assert(line_view(line@)[1] == plain(seq![' '] + identifier_text(diagnostic.source_file)));
                    assert(line_view(res@[0]@) =~= seq![(seq!['-', '-', '>'], Style::Cyan), plain(seq![' '] + identifier_text(diagnostic.source_file))]);
                    assert(lines_view(res@) =~= diagnostic_lines(self.fs().file(diagnostic.source_file), *diagnostic, arrows));
                }
            },
            Some(r) => {
                let top: u32 = if r.start.line >= r.end.line { r.start.line + 1 } else { r.end.line + 1 };
                let w: u64 = crate::text::decimal_string(top as u64).as_str().unicode_len() as u64;
                res.push(Self::place(&diagnostic.source_file, r, w));
                let ghost first = lines_view(res@);
                let ghost file = self.fs().file(diagnostic.source_file);
                match self.package_file_system.cached_source_file(&diagnostic.source_file) {
                    Some(Ok(f)) => {
                        let rows = snippet_rows(r, w, f.get_contents(), arrows);
                        let ghost rv = lines_view(rows@);
                        let mut rows = rows;
                        res.append(&mut rows);
                        proof {
                            assert(lines_view(res@) =~= first + rv);
                        }
                    },
                    _ => {
                        let mut line: Vec<Span> = Vec::new();
                        let text = "could not read file";
                        proof {
                            reveal_strlit("could not read file");
                        }
                        line.push(literal(text, Style::Red));
                        res.push(line);
                        proof {
                            assert(text@ =~= unreadable_text());
                            assert(line_view(res@[1]@) =~= seq![(unreadable_text(), Style::Red)]);
                            assert(lines_view(res@) =~= first + seq![seq![(unreadable_text(), Style::Red)]]);
                        }
                    },
                }
                proof {
                    assert(lines_view(res@) =~= diagnostic_lines(file, *diagnostic, arrows));
                }
            },
        }
        res
    }
}

impl<'fs> ErrorEmitter<'fs> {
    /// Is the layout of this diagnostic defined?
    pub fn can_print(&self, diagnostic: &Diagnostic) -> (res: bool)
        ensures
            res == renderable(self.fs().file(diagnostic.source_file), *diagnostic),
    {
        match diagnostic.range {
            None => true,
            Some(r) => {
                if r.start.line == u32::MAX || r.start.col == u32::MAX || r.end.line == u32::MAX {
                    return false;
                }
                match self.package_file_system.cached_source_file(&diagnostic.source_file) {
                    Some(Ok(f)) => {
                        let contents = f.get_contents();
                        let chars = chars_of(contents);
                        let spans = line_spans(&chars);
                        let ghost lines = text_lines(f@);
                        if r.start.line > r.end.line {
                            return false;
                        }
                        let sl: usize = r.start.line as usize;
                        if r.start.line != r.end.line && sl < spans.len() {
                            let (a, b) = spans[sl];
                            proof {
                                assert(chars@.subrange(a as int, b as int) == lines[sl as int]);
                            }
                            if (r.start.col as usize) > b - a {
                                return false;
                            }
                        }
                        if r.start.line == r.end.line && sl < spans.len() && r.start.col > r.end.col {
                            return false;
                        }
                        true
                    },
                    _ => true,
                }
            },
        }
    }

    /// Is the layout of this message defined?
    pub fn can_emit(&self, message: &ErrorMessage) -> (res: bool)
        ensures
            res == message_renderable(self.fs(), *message),
    {
        if !self.can_print(&message.diagnostic) {
            return false;
        }
        let mut i: usize = 0;
        while i < message.help.len()
            invariant
                i <= message.help@.len(),
                forall|j: int| 0 <= j < i
                    ==> renderable(self.fs().file((#[trigger] message.help@[j]).diagnostic.source_file), message.help@[j].diagnostic),
            decreases message.help@.len() - i,
        {
            if !self.can_print(&message.help[i].diagnostic) {
                return false;
            }
            i = i + 1;
        }
        true
    }

    /// The lines shown for a message: its headline and place, then each help
    /// message with its place. As for `print_message`, files are taken from the cache
    /// as it stands, and one not loaded yet is shown as one that could not be read.
    pub fn emit(&self, message: &ErrorMessage) -> (res: Vec<Vec<Span>>)
        requires
            message_renderable(self.fs(), *message),
        ensures
            lines_view(res@) == message_lines(self.fs(), *message),
    {
        let mut res: Vec<Vec<Span>> = Vec::new();
        let mut head: Vec<Span> = Vec::new();
        match message.severity {
            Severity::Error => {
                let e = "error";
                let c = ":";
                let sp = " ";
                proof {
                    reveal_strlit("error");
                    reveal_strlit(":");
                    reveal_strlit(" ");
                }
                head.push(literal(e, Style::Red));
                head.push(literal(c, Style::White));
                head.push(literal(sp, Style::Plain));
                head.push(span(message.message.clone(), Style::White));
                proof {
                    assert(e@ =~= seq!['e', 'r', 'r', 'o', 'r']);
                    assert(c@ =~= seq![':']);
                    assert(sp@ =~= seq![' ']);
                    assert(line_view(head@) =~= headline(*message));
                }
            },
            Severity::Warning => {
                let w = "warning";
                let sep = ": ";
                proof {
                    reveal_strlit("warning");
                    reveal_strlit(": ");
                }
                let mut text = String::from_str(sep);
                text.append(message.message.as_str());
                head.push(literal(w, Style::Yellow));
                head.push(span(text, Style::Plain));
                proof {
                    assert(w@ =~= seq!['w', 'a', 'r', 'n', 'i', 'n', 'g']);
                    assert(text@ =~= seq![':', ' '] + message.message@);
                    assert(line_view(head@) =~= headline(*message));
                }
            },
        }
        res.push(head);
        let arrows = match message.severity {
            Severity::Error => Style::Red,
            Severity::Warning => Style::Yellow,
        };
        let mut body = self.print_message(&message.diagnostic, arrows);
        let ghost bv = lines_view(body@);
        let ghost hv = lines_view(res@);
        res.append(&mut body);
        proof {
            assert(lines_view(res@) =~= hv + bv);
            assert(hv =~= seq![headline(*message)]);
        }
        let mut i: usize = 0;
        while i < message.help.len()
            invariant
                i <= message.help@.len(),
                message_renderable(self.fs(), *message),
                lines_view(res@) == seq![headline(*message)]
                    + diagnostic_lines(self.fs().file(message.diagnostic.source_file), message.diagnostic, marker_style(message.severity))
                    + help_lines(self.fs(), message.help@.take(i as int)),
            decreases message.help@.len() - i,
        {
            let h = &message.help[i];
            let ghost before = lines_view(res@);
            let mut line: Vec<Span> = Vec::new();
            match h.help_type {
                HelpType::Help => {
                    let t = "help:";
                    proof { reveal_strlit("help:"); }
                    line.push(literal(t, Style::White));
                    assert(t@ =~= seq!['h', 'e', 'l', 'p', ':']);
                },
                HelpType::Note => {
                    let t = "note:";
                    proof { reveal_strlit("note:"); }
                    line.push(literal(t, Style::White));
                    assert(t@ =~= seq!['n', 'o', 't', 'e', ':']);
                },
            }
            let sp = " ";
            proof { reveal_strlit(" "); }
            line.push(literal(sp, Style::Plain));
            line.push(span(h.message.clone(), Style::White));
            proof {
                assert(sp@ =~= seq![' ']);
                assert(line_view(line@) =~= help_headline(*h));
            }
            res.push(line);
            let mut rows = self.print_message(&h.diagnostic, Style::Cyan);
            let ghost rv = lines_view(rows@);
            res.append(&mut rows);
            proof {
                let t = message.help@.take(i + 1);
                assert(t.drop_last() =~= message.help@.take(i as int));
                assert(t.last() == *h);
                assert(lines_view(res@) =~= before + seq![help_headline(*h)] + rv);
            }
            i = i + 1;
        }
        proof {
            assert(message.help@.take(message.help@.len() as int) =~= message.help@);
        }
        res
    }
}

} // verus!
