//! Grabfile scripts: one pattern per line with optional slice options, global options on
//! lines of their own, and comments.
//!
//! ```text
//! # Comment
//! --format json
//! --output output.json
//!
//! src/*.rs --head 100 lines
//! docs/ --full
//! README.md --tail 20 lines
//! ```

use vstd::prelude::*;

use crate::config::Config;
use crate::formatter::{format_text, total_chars, Format, FormatError, Formatter};
use crate::output::{choose_destination, OutputDestination};
use crate::paths::{sort_by_path, stably_sorted_by_path, string_seq};
use crate::slicer::FileContent;
use crate::slicer::SliceMode;
use crate::text::{
    chars_eq, chars_of, lines_of, parse_usize, parse_usize_result, split_lines, split_words,
    starts_with, string_from, trim, trimmed, views, words,
};

verus! {

/// One pattern of a grabfile with the slice applied to the files it matches.
#[derive(Debug)]
pub struct GrabEntry {
    /// The glob pattern.
    pub pattern: String,
    /// How each matched file is sliced.
    pub slice_mode: SliceMode,
}

/// Options that apply to the whole grabfile.
#[derive(Debug)]
pub struct GlobalOptions {
    /// Output format.
    pub format: Format,
    /// File to write the output to.
    pub output: Option<String>,
    /// Whether the output goes to the clipboard.
    pub copy: bool,
    /// Whether a token count is appended to the output.
    pub tokens: bool,
    /// Further ignore patterns.
    pub ignores: Vec<String>,
}

/// Parsed grabfile containing patterns and global options.
#[derive(Debug)]
pub struct GrabFile {
    /// The patterns, in the order of their lines.
    pub entries: Vec<GrabEntry>,
    /// The global options.
    pub global_options: GlobalOptions,
}

/// The option whose arguments are missing.
#[derive(Clone, Copy, Debug, PartialEq, Eq, Structural)]
pub enum SliceFlag {
    Head,
    Tail,
}

/// What is wrong with a line of a grabfile.
#[derive(Debug)]
pub enum SyntaxError {
    /// `--format` without a value.
    FormatRequiresValue,
    /// `--format` with a value that names no format.
    UnknownFormat(String),
    /// `--output` without a path.
    OutputRequiresPath,
    /// `--ignore` without a pattern.
    IgnoreRequiresPattern,
    /// A line starting with `--` that is no global option; it holds the line.
    UnknownOption(String),
    /// An entry with no pattern.
    EmptyEntry,
    /// `--head` or `--tail` without a count.
    CountRequired(SliceFlag),
    /// A count that is not a number.
    NotANumber,
    /// `--head N` or `--tail N` without a unit.
    UnitRequired(SliceFlag),
    /// A unit other than lines or chars.
    BadUnit,
    /// An option after a pattern that is not a slice option.
    UnknownEntryOption(String),
}

/// A grabfile syntax error and the line (counted from 1) where it was found.
#[derive(Debug)]
pub struct GrabError {
    pub line: usize,
    pub error: SyntaxError,
}

/// A syntax error as plain values.
pub enum SyntaxFault {
    FormatRequiresValue,
    UnknownFormat(Seq<char>),
    OutputRequiresPath,
    IgnoreRequiresPattern,
    UnknownOption(Seq<char>),
    EmptyEntry,
    CountRequired(SliceFlag),
    NotANumber,
    UnitRequired(SliceFlag),
    BadUnit,
    UnknownEntryOption(Seq<char>),
}

impl View for SyntaxError {
    type V = SyntaxFault;

    open spec fn view(&self) -> SyntaxFault {
        match self {
            SyntaxError::FormatRequiresValue => SyntaxFault::FormatRequiresValue,
            SyntaxError::UnknownFormat(s) => SyntaxFault::UnknownFormat(s@),
            SyntaxError::OutputRequiresPath => SyntaxFault::OutputRequiresPath,
            SyntaxError::IgnoreRequiresPattern => SyntaxFault::IgnoreRequiresPattern,
            SyntaxError::UnknownOption(s) => SyntaxFault::UnknownOption(s@),
            SyntaxError::EmptyEntry => SyntaxFault::EmptyEntry,
            SyntaxError::CountRequired(f) => SyntaxFault::CountRequired(*f),
            SyntaxError::NotANumber => SyntaxFault::NotANumber,
            SyntaxError::UnitRequired(f) => SyntaxFault::UnitRequired(*f),
            SyntaxError::BadUnit => SyntaxFault::BadUnit,
            SyntaxError::UnknownEntryOption(s) => SyntaxFault::UnknownEntryOption(s@),
        }
    }
}

/// Global options as plain values.
pub struct OptionsView {
    pub format: Format,
    pub output: Option<Seq<char>>,
    pub copy: bool,
    pub tokens: bool,
    pub ignores: Seq<Seq<char>>,
}

/// A grabfile as plain values: each entry's pattern and slice mode, and the options.
pub struct GrabView {
    pub entries: Seq<(Seq<char>, SliceMode)>,
    pub options: OptionsView,
}

pub open spec fn string_views(v: Seq<String>) -> Seq<Seq<char>> {
    v.map_values(|s: String| s@)
}

impl View for GlobalOptions {
    type V = OptionsView;

    open spec fn view(&self) -> OptionsView {
        OptionsView {
            format: self.format,
            output: match self.output {
                Some(p) => Some(p@),
                None => None,
            },
            copy: self.copy,
            tokens: self.tokens,
            ignores: string_views(self.ignores@),
        }
    }
}

impl View for GrabEntry {
    type V = (Seq<char>, SliceMode);

    open spec fn view(&self) -> (Seq<char>, SliceMode) {
        (self.pattern@, self.slice_mode)
    }
}

impl View for GrabFile {
    type V = GrabView;

    open spec fn view(&self) -> GrabView {
        GrabView {
            entries: self.entries@.map_values(|e: GrabEntry| e@),
            options: self.global_options@,
        }
    }
}

/// Markdown output to stdout without a token count, with no further ignores.
pub open spec fn default_options() -> OptionsView {
    OptionsView { format: Format::Markdown, output: None, copy: false, tokens: false, ignores: Seq::empty() }
}

impl Default for GlobalOptions {
    fn default() -> (out: Self)
        ensures
            out@ == default_options(),
    {
        let ignores: Vec<String> = Vec::new();
        let out = GlobalOptions { format: Format::Markdown, output: None, copy: false, tokens: false, ignores };
        proof {
            assert(string_views(out.ignores@) =~= Seq::<Seq<char>>::empty());
        }
        out
    }
}

pub open spec fn lines_unit(u: Seq<char>) -> bool {
    u == "lines"@ || u == "line"@
}

pub open spec fn chars_unit(u: Seq<char>) -> bool {
    u == "chars"@ || u == "char"@ || u == "characters"@
}

/// The slice mode of `--head`/`--tail` with a count and a unit.
pub open spec fn flagged_mode(flag: SliceFlag, n: usize, lines: bool) -> SliceMode {
    match (flag, lines) {
        (SliceFlag::Head, true) => SliceMode::HeadLines(n),
        (SliceFlag::Head, false) => SliceMode::HeadChars(n),
        (SliceFlag::Tail, true) => SliceMode::TailLines(n),
        (SliceFlag::Tail, false) => SliceMode::TailChars(n),
    }
}

/// The options after an entry's pattern, from word `i` on, applied left to right to
/// `mode`: `--head N unit`, `--tail N unit` and `--full`; the last one wins.
pub open spec fn entry_options(parts: Seq<Seq<char>>, i: nat, mode: SliceMode) -> Result<SliceMode, SyntaxFault>
    decreases parts.len() - i,
{
    if i >= parts.len() {
        Ok(mode)
    } else if parts[i as int] == "--head"@ || parts[i as int] == "--tail"@ {
        let flag = if parts[i as int] == "--head"@ {
            SliceFlag::Head
        } else {
            SliceFlag::Tail
        };
        if i + 1 >= parts.len() {
            Err(SyntaxFault::CountRequired(flag))
        } else {
            match parse_usize_result(parts[i + 1 as int]) {
                None => Err(SyntaxFault::NotANumber),
                Some(n) => if i + 2 >= parts.len() {
                    Err(SyntaxFault::UnitRequired(flag))
                } else if lines_unit(parts[i + 2 as int]) {
                    entry_options(parts, i + 3, flagged_mode(flag, n, true))
                } else if chars_unit(parts[i + 2 as int]) {
                    entry_options(parts, i + 3, flagged_mode(flag, n, false))
                } else {
                    Err(SyntaxFault::BadUnit)
                },
            }
        }
    } else if parts[i as int] == "--full"@ {
        entry_options(parts, i + 1, SliceMode::Full)
    } else {
        Err(SyntaxFault::UnknownEntryOption(parts[i as int]))
    }
}

/// An entry line: its first word is the pattern, the rest are slice options.
pub open spec fn entry_result(line: Seq<char>) -> Result<(Seq<char>, SliceMode), SyntaxFault> {
    let parts = words(line);
    if parts.len() == 0 {
        Err(SyntaxFault::EmptyEntry)
    } else {
        match entry_options(parts, 1, SliceMode::Full) {
            Ok(mode) => Ok((parts[0], mode)),
            Err(e) => Err(e),
        }
    }
}

/// An entry line of four words `P --head N unit` or `P --tail N unit`, where `N` reads as
/// the count `n`, selects pattern `P` with the first (`--head`) or last (`--tail`) `n`
/// lines (unit `line` or `lines`) or characters (unit `char`, `chars` or `characters`).
pub proof fn lemma_entry_slice_options(line: Seq<char>, n: usize)
    requires
        words(line).len() == 4,
        parse_usize_result(words(line)[2]) == Some(n),
    ensures
        ({
            let w = words(line);
            let lines = w[3] == "lines"@ || w[3] == "line"@;
            let chars = w[3] == "chars"@ || w[3] == "char"@ || w[3] == "characters"@;
            &&& w[1] == "--head"@ && lines ==> entry_result(line) == Ok::<
                (Seq<char>, SliceMode),
                SyntaxFault,
            >((w[0], SliceMode::HeadLines(n)))
            &&& w[1] == "--head"@ && chars ==> entry_result(line) == Ok::<
                (Seq<char>, SliceMode),
                SyntaxFault,
            >((w[0], SliceMode::HeadChars(n)))
            &&& w[1] == "--tail"@ && lines ==> entry_result(line) == Ok::<
                (Seq<char>, SliceMode),
                SyntaxFault,
            >((w[0], SliceMode::TailLines(n)))
            &&& w[1] == "--tail"@ && chars ==> entry_result(line) == Ok::<
                (Seq<char>, SliceMode),
                SyntaxFault,
            >((w[0], SliceMode::TailChars(n)))
        }),
{
    reveal_strlit("--head");
    reveal_strlit("--tail");
    reveal_strlit("lines");
    reveal_strlit("line");
    reveal_strlit("chars");
    reveal_strlit("char");
    reveal_strlit("characters");
    let w = words(line);
    reveal_with_fuel(entry_options, 2);
    if w[3] == "chars"@ || w[3] == "char"@ || w[3] == "characters"@ {
        assert(w[3][0] == 'c');
        assert(!lines_unit(w[3])) by {
            assert("lines"@[0] == 'l' && "line"@[0] == 'l');
        }
        assert(chars_unit(w[3]));
    }
    if w[3] == "lines"@ || w[3] == "line"@ {
        assert(lines_unit(w[3]));
    }
    if w[1] == "--head"@ {
        assert(w[1] != "--tail"@) by {
            assert(w[1][2] == 'h');
        }
    }
    if w[1] == "--tail"@ {
        assert(w[1] != "--head"@) by {
            assert(w[1][2] == 't');
        }
    }
    assert(entry_options(w, 4, SliceMode::HeadLines(n)) == Ok::<SliceMode, SyntaxFault>(SliceMode::HeadLines(n)));
    assert(entry_options(w, 4, SliceMode::HeadChars(n)) == Ok::<SliceMode, SyntaxFault>(SliceMode::HeadChars(n)));
    assert(entry_options(w, 4, SliceMode::TailLines(n)) == Ok::<SliceMode, SyntaxFault>(SliceMode::TailLines(n)));
    assert(entry_options(w, 4, SliceMode::TailChars(n)) == Ok::<SliceMode, SyntaxFault>(SliceMode::TailChars(n)));
}

/// A global option line applied to the options so far.
pub open spec fn global_option_result(line: Seq<char>, o: OptionsView) -> Result<OptionsView, SyntaxFault> {
    let parts = words(line);
    if parts.len() > 0 && parts[0] == "--format"@ {
        if parts.len() < 2 {
            Err(SyntaxFault::FormatRequiresValue)
        } else if parts[1] == "md"@ || parts[1] == "markdown"@ {
            Ok(OptionsView { format: Format::Markdown, ..o })
        } else if parts[1] == "plain"@ || parts[1] == "text"@ {
            Ok(OptionsView { format: Format::Plain, ..o })
        } else if parts[1] == "json"@ {
            Ok(OptionsView { format: Format::Json, ..o })
        } else {
            Err(SyntaxFault::UnknownFormat(parts[1]))
        }
    } else if parts.len() > 0 && parts[0] == "--output"@ {
        if parts.len() < 2 {
            Err(SyntaxFault::OutputRequiresPath)
        } else {
            Ok(OptionsView { output: Some(parts[1]), ..o })
        }
    } else if parts.len() > 0 && parts[0] == "--copy"@ {
        Ok(OptionsView { copy: true, ..o })
    } else if parts.len() > 0 && parts[0] == "--tokens"@ {
        Ok(OptionsView { tokens: true, ..o })
    } else if parts.len() > 0 && parts[0] == "--ignore"@ {
        if parts.len() < 2 {
            Err(SyntaxFault::IgnoreRequiresPattern)
        } else {
            Ok(OptionsView { ignores: o.ignores.push(parts[1]), ..o })
        }
    } else {
        Err(SyntaxFault::UnknownOption(line))
    }
}

/// Whether a (trimmed) line is skipped: empty, a comment, or a shebang.
pub open spec fn skipped_line(line: Seq<char>) -> bool {
    line.len() == 0 || line[0] == '#'
}

/// Whether a (trimmed) line holds a global option.
pub open spec fn option_line(line: Seq<char>) -> bool {
    line.len() >= 2 && line[0] == '-' && line[1] == '-'
}

/// The lines of a grabfile from line `i` on, applied to what the earlier lines gave; an
/// error names the line, counted from 1.
pub open spec fn grab_lines(ls: Seq<Seq<char>>, i: nat, acc: GrabView) -> Result<GrabView, (nat, SyntaxFault)>
    decreases ls.len() - i,
{
    if i >= ls.len() {
        Ok(acc)
    } else {
        let line = trim(ls[i as int]);
        if skipped_line(line) {
            grab_lines(ls, i + 1, acc)
        } else if option_line(line) {
            match global_option_result(line, acc.options) {
                Ok(o) => grab_lines(ls, i + 1, GrabView { entries: acc.entries, options: o }),
                Err(e) => Err((i + 1, e)),
            }
        } else {
            match entry_result(line) {
                Ok(entry) => grab_lines(
                    ls,
                    i + 1,
                    GrabView { entries: acc.entries.push(entry), options: acc.options },
                ),
                Err(e) => Err((i + 1, e)),
            }
        }
    }
}

/// A grabfile's text parsed line by line.
pub open spec fn grabfile_result(content: Seq<char>) -> Result<GrabView, (nat, SyntaxFault)> {
    grab_lines(lines_of(content), 0, GrabView { entries: Seq::empty(), options: default_options() })
}

/// Applies one global option line to `options`.
fn parse_global_option(line: &[char], options: &mut GlobalOptions) -> (out: Result<(), SyntaxError>)
    ensures
        match global_option_result(line@, old(options)@) {
            Ok(o) => out is Ok && final(options)@ == o,
            Err(e) => out matches Err(x) && x@ == e && final(options)@ == old(options)@,
        },
{
    let parts = split_words(line);
    if parts.len() > 0 && chars_eq(parts[0].as_slice(), "--format") {
        if parts.len() < 2 {
            return Err(SyntaxError::FormatRequiresValue);
        }
        let value = parts[1].as_slice();
        if chars_eq(value, "md") || chars_eq(value, "markdown") {
            options.format = Format::Markdown;
        } else if chars_eq(value, "plain") || chars_eq(value, "text") {
            options.format = Format::Plain;
        } else if chars_eq(value, "json") {
            options.format = Format::Json;
        } else {
            return Err(SyntaxError::UnknownFormat(string_from(value)));
        }
    } else if parts.len() > 0 && chars_eq(parts[0].as_slice(), "--output") {
        if parts.len() < 2 {
            return Err(SyntaxError::OutputRequiresPath);
        }
        options.output = Some(string_from(parts[1].as_slice()));
    } else if parts.len() > 0 && chars_eq(parts[0].as_slice(), "--copy") {
        options.copy = true;
    } else if parts.len() > 0 && chars_eq(parts[0].as_slice(), "--tokens") {
        options.tokens = true;
    } else if parts.len() > 0 && chars_eq(parts[0].as_slice(), "--ignore") {
        if parts.len() < 2 {
            return Err(SyntaxError::IgnoreRequiresPattern);
        }
        let pattern = string_from(parts[1].as_slice());
        let ghost before = string_views(options.ignores@);
        options.ignores.push(pattern);
        proof {
            assert(string_views(options.ignores@) =~= before.push(pattern@));
        }
    } else {
        return Err(SyntaxError::UnknownOption(string_from(line)));
    }
    Ok(())
}

/// Parses an entry line: a pattern followed by slice options.
fn parse_entry(line: &[char]) -> (out: Result<GrabEntry, SyntaxError>)
    ensures
        match entry_result(line@) {
            Ok(e) => out matches Ok(g) && g@ == e,
            Err(f) => out matches Err(x) && x@ == f,
        },
{
    let parts = split_words(line);
    if parts.len() == 0 {
        return Err(SyntaxError::EmptyEntry);
    }
    let ghost ws = words(line@);
    let pattern = string_from(parts[0].as_slice());
    let mut slice_mode = SliceMode::Full;
    let mut i: usize = 1;
    while i < parts.len()
        invariant
            1 <= i <= parts@.len(),
            views(parts@) == ws,
            ws == words(line@),
            ws.len() > 0,
            entry_options(ws, i as nat, slice_mode) == entry_options(ws, 1, SliceMode::Full),
        decreases parts@.len() - i,
    {
        let part = parts[i].as_slice();
        let is_head = chars_eq(part, "--head");
        if is_head || chars_eq(part, "--tail") {
            let flag = if is_head {
                SliceFlag::Head
            } else {
                SliceFlag::Tail
            };
            if i + 1 >= parts.len() {
                return Err(SyntaxError::CountRequired(flag));
            }
            let n = match parse_usize(parts[i + 1].as_slice()) {
                Some(n) => n,
                None => return Err(SyntaxError::NotANumber),
            };
            if i + 2 >= parts.len() {
                return Err(SyntaxError::UnitRequired(flag));
            }
            let unit = parts[i + 2].as_slice();
            if chars_eq(unit, "lines") || chars_eq(unit, "line") {
                slice_mode = if is_head {
                    SliceMode::HeadLines(n)
                } else {
                    SliceMode::TailLines(n)
                };
            } else if chars_eq(unit, "chars") || chars_eq(unit, "char") || chars_eq(
                unit,
                "characters",
            ) {
                slice_mode = if is_head {
                    SliceMode::HeadChars(n)
                } else {
                    SliceMode::TailChars(n)
                };
            } else {
                return Err(SyntaxError::BadUnit);
            }
            i = i + 3;
        } else if chars_eq(part, "--full") {
            slice_mode = SliceMode::Full;
            i = i + 1;
        } else {
            return Err(SyntaxError::UnknownEntryOption(string_from(part)));
        }
    }
    Ok(GrabEntry { pattern, slice_mode })
}

impl GrabFile {
    /// Parses the text of a grabfile.
    pub fn parse(content: &str) -> (out: Result<GrabFile, GrabError>)
        ensures
            match grabfile_result(content@) {
                Ok(v) => out matches Ok(g) && g@ == v,
                Err((line, fault)) => out matches Err(e) && e.line == line && e.error@ == fault,
            },
    {
        let cs = chars_of(content);
        let ls = split_lines(cs.as_slice());
        let mut entries: Vec<GrabEntry> = Vec::new();
        let mut global_options = GlobalOptions::default();
        let mut i: usize = 0;
        proof {
            assert(entries@.map_values(|e: GrabEntry| e@) =~= Seq::<(Seq<char>, SliceMode)>::empty());
        }
        while i < ls.len()
            invariant
                i <= ls@.len(),
                views(ls@) == lines_of(content@),
                grab_lines(
                    lines_of(content@),
                    i as nat,
                    GrabView {
                        entries: entries@.map_values(|e: GrabEntry| e@),
                        options: global_options@,
                    },
                ) == grabfile_result(content@),
            decreases ls@.len() - i,
        {
            let line = trimmed(ls[i].as_slice());
            proof {
                assert(line@ == trim(lines_of(content@)[i as int]));
                reveal_strlit("--");
                reveal_strlit("#!");
                if option_line(line@) {
                    assert(line@.take(2) =~= "--"@);
                }
                if 2 <= line@.len() && line@.take(2) =~= "--"@ {
                    assert(line@[0] == line@.take(2)[0]);
                    assert(line@[1] == line@.take(2)[1]);
                }
                if 2 <= line@.len() && line@.take(2) =~= "#!"@ {
                    assert(line@[0] == line@.take(2)[0]);
                }
            }
            if line.len() == 0 || line[0] == '#' {
                i = i + 1;
                continue;
            }
            if starts_with(line.as_slice(), "#!") {
                i = i + 1;
                continue;
            }
            if starts_with(line.as_slice(), "--") {
                match parse_global_option(line.as_slice(), &mut global_options) {
                    Ok(()) => {},
                    Err(error) => {
                        return Err(GrabError { line: i + 1, error });
                    },
                }
            } else {
                match parse_entry(line.as_slice()) {
                    Ok(entry) => {
                        let ghost before = entries@.map_values(|e: GrabEntry| e@);
                        entries.push(entry);
                        proof {
                            assert(entries@.map_values(|e: GrabEntry| e@) =~= before.push(entry@));
                        }
                    },
                    Err(error) => {
                        return Err(GrabError { line: i + 1, error });
                    },
                }
            }
            i = i + 1;
        }
        Ok(GrabFile { entries, global_options })
    }
}

/// Why a grabfile produced no output.
#[derive(Debug)]
pub enum ExecuteError {
    /// None of the grabfile's patterns matched a file.
    NoFilesMatched,
    /// The output could not be formatted.
    Format(FormatError),
}

impl GrabFile {
    /// The ignore patterns for this grabfile: the configured ones, then its own.
    pub fn ignore_patterns(&self, config: &Config) -> (out: Vec<String>)
        ensures
            string_seq(out@) == config@.ignore + self.global_options@.ignores,
    {
        let out = config.ignores_with(self.global_options.ignores.as_slice());
        out
    }

    /// Where the output goes: the clipboard with `--copy`, else the `--output` file, else
    /// standard output.
    pub fn destination(&self) -> (out: OutputDestination)
        ensures
            self.global_options.copy ==> out is Clipboard,
            !self.global_options.copy && self.global_options.output is Some ==> (out matches OutputDestination::File(p) && p@ == self.global_options.output->0@),
            !self.global_options.copy && self.global_options.output is None ==> out is Stdout,
    {
        let output = match &self.global_options.output {
            Some(p) => Some(crate::text::string_from(crate::text::chars_of(p.as_str()).as_slice())),
            None => None,
        };
        choose_destination(self.global_options.copy, output)
    }

    /// Compiles the slices of the matched files: an error when there are none, else the
    /// files sorted by path (files with the same path in their order) in the grabfile's
    /// format, with a token count where the grabfile asks for one.
    pub fn execute(&self, contents: Vec<FileContent>) -> (out: Result<String, ExecuteError>)
        requires
            self.global_options.tokens ==> total_chars(contents@) <= usize::MAX,
        ensures
            contents@.len() == 0 ==> (out matches Err(ExecuteError::NoFilesMatched)),
            contents@.len() > 0 ==> (out matches Ok(s) && exists|sorted: Seq<FileContent>|
                stably_sorted_by_path(sorted, contents@) && s@ == format_text(
                    self.global_options.format,
                    sorted,
                    self.global_options.tokens,
                )),
    {
        if contents.len() == 0 {
            return Err(ExecuteError::NoFilesMatched);
        }
        let sorted = sort_by_path(contents);
        let formatter = Formatter::new(self.global_options.format).with_tokens(self.global_options.tokens);
        match formatter.format(sorted.as_slice()) {
            Ok(s) => Ok(s),
            Err(e) => Err(ExecuteError::Format(e)),
        }
    }
}

impl ExecuteError {
    /// The message reported for a grabfile that matched no file; the other errors report
    /// their cause.
    pub fn message(&self) -> (out: String)
        ensures
            self is NoFilesMatched ==> out@ == "No files matched any patterns in the grabfile"@,
            self is Format ==> out@ == "Failed to format output"@,
    {
        match self {
            ExecuteError::NoFilesMatched => String::from_str("No files matched any patterns in the grabfile"),
            ExecuteError::Format(_) => String::from_str("Failed to format output"),
        }
    }
}

impl SyntaxError {
    /// The message reported for the error.
    pub fn message(&self) -> (out: String)
        ensures
            out@ == syntax_message(self@),
    {
        match self {
            SyntaxError::FormatRequiresValue => String::from_str("Invalid syntax: --format requires a value"),
            SyntaxError::UnknownFormat(f) => quoted("Invalid syntax: unknown format '", f),
            SyntaxError::OutputRequiresPath => String::from_str("Invalid syntax: --output requires a path"),
            SyntaxError::IgnoreRequiresPattern => String::from_str("Invalid syntax: --ignore requires a pattern"),
            SyntaxError::UnknownOption(line) => quoted("Invalid syntax: unknown option '", line),
            SyntaxError::EmptyEntry => String::from_str("Invalid syntax: empty entry"),
            SyntaxError::CountRequired(SliceFlag::Head) => String::from_str("Invalid syntax: --head requires N"),
            SyntaxError::CountRequired(SliceFlag::Tail) => String::from_str("Invalid syntax: --tail requires N"),
            SyntaxError::NotANumber => String::from_str("Invalid syntax: N must be a number"),
            SyntaxError::UnitRequired(SliceFlag::Head) => String::from_str("Invalid syntax: --head requires unit"),
            SyntaxError::UnitRequired(SliceFlag::Tail) => String::from_str("Invalid syntax: --tail requires unit"),
            SyntaxError::BadUnit => String::from_str("Invalid syntax: unit must be 'lines' or 'chars'"),
            SyntaxError::UnknownEntryOption(o) => quoted("Invalid syntax: unknown option '", o),
        }
    }
}

/// `prefix`, the text, and a closing quote.
fn quoted(prefix: &str, text: &String) -> (out: String)
    ensures
        out@ == prefix@ + text@ + "'"@,
{
    let mut out = String::from_str(prefix);
    out.append(text.as_str());
    out.append("'");
    out
}

/// The message of a syntax error.
pub open spec fn syntax_message(f: SyntaxFault) -> Seq<char> {
    match f {
        SyntaxFault::FormatRequiresValue => "Invalid syntax: --format requires a value"@,
        SyntaxFault::UnknownFormat(v) => "Invalid syntax: unknown format '"@ + v + "'"@,
        SyntaxFault::OutputRequiresPath => "Invalid syntax: --output requires a path"@,
        SyntaxFault::IgnoreRequiresPattern => "Invalid syntax: --ignore requires a pattern"@,
        SyntaxFault::UnknownOption(line) => "Invalid syntax: unknown option '"@ + line + "'"@,
        SyntaxFault::EmptyEntry => "Invalid syntax: empty entry"@,
        SyntaxFault::CountRequired(SliceFlag::Head) => "Invalid syntax: --head requires N"@,
        SyntaxFault::CountRequired(SliceFlag::Tail) => "Invalid syntax: --tail requires N"@,
        SyntaxFault::NotANumber => "Invalid syntax: N must be a number"@,
        SyntaxFault::UnitRequired(SliceFlag::Head) => "Invalid syntax: --head requires unit"@,
        SyntaxFault::UnitRequired(SliceFlag::Tail) => "Invalid syntax: --tail requires unit"@,
        SyntaxFault::BadUnit => "Invalid syntax: unit must be 'lines' or 'chars'"@,
        SyntaxFault::UnknownEntryOption(o) => "Invalid syntax: unknown option '"@ + o + "'"@,
    }
}

impl GrabError {
    /// The message reported for the error: the line where it was found. What is wrong
    /// with the line is the message of `error`.
    pub fn message(&self) -> (out: String)
        ensures
            out@ == "Invalid syntax at line "@ + crate::text::decimal(self.line as nat),
    {
        let mut out = String::from_str("Invalid syntax at line ");
        let digits = crate::text::decimal_chars(self.line);
        crate::text::push_chars(&mut out, digits.as_slice());
        out
    }
}

} // verus!
