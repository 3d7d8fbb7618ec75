//! The decisions of the command line: the slice options, the compiled output of a query,
//! and the exit status of a failure.

use vstd::prelude::*;

use crate::formatter::{format_text, total_chars, Format, FormatError, Formatter};
use crate::grabfile::{chars_unit, flagged_mode, lines_unit, SliceFlag};
use crate::paths::{sort_by_path, stably_sorted_by_path, string_seq};
use crate::slicer::{FileContent, SliceMode};
use crate::text::{chars_eq, chars_of, parse_usize, parse_usize_result};

verus! {

/// What `str::to_lowercase` gives: the string with each character mapped to its Unicode
/// lowercase form.
pub uninterp spec fn unicode_lowercase(s: Seq<char>) -> Seq<char>;

/// Calls `str::to_lowercase`; its result is named `unicode_lowercase`.
#[verifier::external_body]
fn to_lowercase(s: &str) -> (out: String)
    ensures
        out@ == unicode_lowercase(s@),
{
    s.to_lowercase()
}

/// What is wrong with the slice options of a query.
#[derive(Debug)]
pub enum CliError {
    /// `--head` or `--tail` without exactly a count and a unit.
    ArgsRequired(SliceFlag),
    /// A count that is not a number.
    NotANumber,
    /// A unit other than lines or chars.
    BadUnit,
}

/// The slice options as plain values.
#[derive(Clone, Copy, Debug, PartialEq, Eq, Structural)]
pub enum CliFault {
    ArgsRequired(SliceFlag),
    NotANumber,
    BadUnit,
}

impl View for CliError {
    type V = CliFault;

    open spec fn view(&self) -> CliFault {
        match self {
            CliError::ArgsRequired(f) => CliFault::ArgsRequired(*f),
            CliError::NotANumber => CliFault::NotANumber,
            CliError::BadUnit => CliFault::BadUnit,
        }
    }
}

/// The slice of `--head N UNIT` or `--tail N UNIT`; the unit is compared in lowercase.
pub open spec fn flag_args_result(args: Seq<Seq<char>>, flag: SliceFlag) -> Result<SliceMode, CliFault> {
    if args.len() != 2 {
        Err(CliFault::ArgsRequired(flag))
    } else {
        match parse_usize_result(args[0]) {
            None => Err(CliFault::NotANumber),
            Some(n) => unit_mode_result(flag, n, unicode_lowercase(args[1])),
        }
    }
}

/// The slice of a count and a unit already in lowercase.
pub open spec fn unit_mode_result(flag: SliceFlag, n: usize, unit: Seq<char>) -> Result<SliceMode, CliFault> {
    if lines_unit(unit) {
        Ok(flagged_mode(flag, n, true))
    } else if chars_unit(unit) {
        Ok(flagged_mode(flag, n, false))
    } else {
        Err(CliFault::BadUnit)
    }
}

/// One argument of a query, in the order it was given.
pub enum QueryArg {
    /// A glob pattern.
    Pattern(String),
    /// `--head` with its arguments.
    Head(Vec<String>),
    /// `--tail` with its arguments.
    Tail(Vec<String>),
    /// `--full`.
    Full,
}

pub open spec fn is_pattern(arg: QueryArg) -> bool {
    arg is Pattern
}

/// Which kind of argument: 0 for a pattern, 1 for `--head`, 2 for `--tail`, 3 for `--full`.
pub open spec fn arg_kind(arg: QueryArg) -> int {
    match arg {
        QueryArg::Pattern(_) => 0,
        QueryArg::Head(_) => 1,
        QueryArg::Tail(_) => 2,
        QueryArg::Full => 3,
    }
}

/// Where the run of patterns that holds position `i` ends.
pub open spec fn run_end(args: Seq<QueryArg>, i: int) -> int
    decreases args.len() - i,
{
    if 0 <= i < args.len() && is_pattern(args[i]) {
        run_end(args, i + 1)
    } else {
        i
    }
}

/// Where the run of slice options that holds position `j` ends.
pub open spec fn options_end(args: Seq<QueryArg>, j: int) -> int
    decreases args.len() - j,
{
    if 0 <= j < args.len() && !is_pattern(args[j]) {
        options_end(args, j + 1)
    } else {
        j
    }
}

/// Some argument among those from `j` up to `k` is of kind `kind`.
pub open spec fn has_kind(args: Seq<QueryArg>, j: int, k: int, kind: int) -> bool
    decreases k - j,
{
    if k <= j {
        false
    } else {
        arg_kind(args[k - 1]) == kind || has_kind(args, j, k - 1, kind)
    }
}

/// The values that a `--head` or `--tail` option carries; none for the others.
pub open spec fn option_values(arg: QueryArg) -> Seq<Seq<char>> {
    match arg {
        QueryArg::Head(v) => string_seq(v@),
        QueryArg::Tail(v) => string_seq(v@),
        _ => Seq::empty(),
    }
}

/// The values of all the options of kind `kind` among those from `j` up to `k`, one
/// after the other, as repeated options collect them.
pub open spec fn kind_values(args: Seq<QueryArg>, j: int, k: int, kind: int) -> Seq<Seq<char>>
    decreases k - j,
{
    if k <= j {
        Seq::empty()
    } else if arg_kind(args[k - 1]) == kind {
        kind_values(args, j, k - 1, kind) + option_values(args[k - 1])
    } else {
        kind_values(args, j, k - 1, kind)
    }
}

/// The slice of the run of slice options that starts at `j`: the full file if it holds a
/// `--full`, else what its `--head` values ask for, else what its `--tail` values ask
/// for, else the full file. Only the option that decides is checked.
pub open spec fn run_mode(args: Seq<QueryArg>, j: int) -> Result<SliceMode, CliFault> {
    let e = options_end(args, j);
    if has_kind(args, j, e, 3) {
        Ok(SliceMode::Full)
    } else if has_kind(args, j, e, 1) {
        flag_args_result(kind_values(args, j, e, 1), SliceFlag::Head)
    } else if has_kind(args, j, e, 2) {
        flag_args_result(kind_values(args, j, e, 2), SliceFlag::Tail)
    } else {
        Ok(SliceMode::Full)
    }
}

/// A run of slice options starts at `j`.
pub open spec fn run_start(args: Seq<QueryArg>, j: int) -> bool {
    0 <= j < args.len() && !is_pattern(args[j]) && (j == 0 || is_pattern(args[j - 1]))
}

/// The fault of the first run of slice options, from position `i` on, whose slice is
/// malformed.
pub open spec fn first_fault(args: Seq<QueryArg>, i: int) -> Option<CliFault>
    decreases args.len() - i,
{
    if i < 0 || i >= args.len() {
        None
    } else if run_start(args, i) && run_mode(args, i) is Err {
        Some(run_mode(args, i)->Err_0)
    } else {
        first_fault(args, i + 1)
    }
}

pub open spec fn ok_mode(r: Result<SliceMode, CliFault>) -> SliceMode {
    match r {
        Ok(m) => m,
        Err(_) => SliceMode::Full,
    }
}

/// The slice of the pattern at `i`: that of the slice options right after its run of
/// patterns; where none follow, that of the slice options before the first pattern; else
/// the full file.
pub open spec fn pattern_mode(args: Seq<QueryArg>, i: int) -> SliceMode {
    let e = run_end(args, i);
    if e < args.len() {
        ok_mode(run_mode(args, e))
    } else if args.len() > 0 && !is_pattern(args[0]) {
        ok_mode(run_mode(args, 0))
    } else {
        SliceMode::Full
    }
}

/// The patterns among the first `i` arguments, each with its slice.
pub open spec fn entries_upto(args: Seq<QueryArg>, i: int) -> Seq<(Seq<char>, SliceMode)>
    decreases i,
{
    if i <= 0 || i > args.len() {
        Seq::empty()
    } else {
        let prev = entries_upto(args, i - 1);
        match args[i - 1] {
            QueryArg::Pattern(p) => prev.push((p@, pattern_mode(args, i - 1))),
            _ => prev,
        }
    }
}

/// The patterns of a query, each with its slice, or the first malformed slice option.
pub open spec fn query_entries_result(args: Seq<QueryArg>) -> Result<Seq<(Seq<char>, SliceMode)>, CliFault> {
    match first_fault(args, 0) {
        Some(f) => Err(f),
        None => Ok(entries_upto(args, args.len() as int)),
    }
}

pub open spec fn entry_views(v: Seq<(String, SliceMode)>) -> Seq<(Seq<char>, SliceMode)> {
    v.map_values(|e: (String, SliceMode)| (e.0@, e.1))
}

fn flag_args(args: &Vec<String>, flag: SliceFlag) -> (out: Result<SliceMode, CliError>)
    ensures
        match flag_args_result(string_seq(args@), flag) {
            Ok(m) => out matches Ok(x) && x == m,
            Err(f) => out matches Err(e) && e@ == f,
        },
{
    if args.len() != 2 {
        return Err(CliError::ArgsRequired(flag));
    }
    let count = chars_of(args[0].as_str());
    let n = match parse_usize(count.as_slice()) {
        Some(n) => n,
        None => return Err(CliError::NotANumber),
    };
    let lowered = to_lowercase(args[1].as_str());
    unit_mode(flag, n, lowered.as_str())
}

/// The slice of `--head` or `--tail` with the count `n` and a unit already in lowercase:
/// `line`/`lines` for lines, `char`/`chars`/`characters` for characters.
pub fn unit_mode(flag: SliceFlag, n: usize, unit: &str) -> (out: Result<SliceMode, CliError>)
    ensures
        match unit_mode_result(flag, n, unit@) {
            Ok(m) => out matches Ok(x) && x == m,
            Err(f) => out matches Err(e) && e@ == f,
        },
{
    let chars = chars_of(unit);
    let u = chars.as_slice();
    if chars_eq(u, "lines") || chars_eq(u, "line") {
        Ok(
            match flag {
                SliceFlag::Head => SliceMode::HeadLines(n),
                SliceFlag::Tail => SliceMode::TailLines(n),
            },
        )
    } else if chars_eq(u, "chars") || chars_eq(u, "char") || chars_eq(u, "characters") {
        Ok(
            match flag {
                SliceFlag::Head => SliceMode::HeadChars(n),
                SliceFlag::Tail => SliceMode::TailChars(n),
            },
        )
    } else {
        Err(CliError::BadUnit)
    }
}

fn is_pattern_arg(arg: &QueryArg) -> (out: bool)
    ensures
        out == is_pattern(*arg),
{
    match arg {
        QueryArg::Pattern(_) => true,
        _ => false,
    }
}

fn run_end_at(args: &[QueryArg], i: usize) -> (e: usize)
    requires
        i <= args@.len(),
    ensures
        e == run_end(args@, i as int),
        i <= e <= args@.len(),
{
    let mut e = i;
    while e < args.len() && is_pattern_arg(&args[e])
        invariant
            i <= e <= args@.len(),
            run_end(args@, e as int) == run_end(args@, i as int),
        decreases args@.len() - e,
    {
        e = e + 1;
    }
    e
}

/// Appends copies of the strings of `v` to `acc`.
fn push_values(acc: &mut Vec<String>, v: &Vec<String>)
    ensures
        string_seq(final(acc)@) == string_seq(old(acc)@) + string_seq(v@),
{
    let ghost start = string_seq(acc@);
    let mut t: usize = 0;
    while t < v.len()
        invariant
            t <= v@.len(),
            string_seq(acc@) == start + string_seq(v@.subrange(0, t as int)),
        decreases v@.len() - t,
    {
        let copy = String::from_str(v[t].as_str());
        let ghost before = acc@;
        acc.push(copy);
        proof {
            assert(v@.subrange(0, t + 1) =~= v@.subrange(0, t as int).push(v@[t as int]));
            assert(string_seq(acc@) =~= string_seq(before).push(v@[t as int]@));
            assert(string_seq(v@.subrange(0, t + 1)) =~= string_seq(v@.subrange(0, t as int)).push(
                v@[t as int]@,
            ));
            assert(string_seq(acc@) =~= start + string_seq(v@.subrange(0, t + 1)));
        }
        t = t + 1;
    }
    proof {
        assert(v@.subrange(0, v@.len() as int) =~= v@);
    }
}

fn run_mode_at(args: &[QueryArg], j: usize) -> (out: Result<SliceMode, CliError>)
    requires
        j < args@.len(),
    ensures
        match run_mode(args@, j as int) {
            Ok(m) => out matches Ok(x) && x == m,
            Err(f) => out matches Err(e) && e@ == f,
        },
{
    let mut k = j;
    let mut full = false;
    let mut has_head = false;
    let mut has_tail = false;
    let mut heads: Vec<String> = Vec::new();
    let mut tails: Vec<String> = Vec::new();
    proof {
        assert(string_seq(heads@) =~= Seq::<Seq<char>>::empty());
        assert(string_seq(tails@) =~= Seq::<Seq<char>>::empty());
    }
    while k < args.len() && !is_pattern_arg(&args[k])
        invariant
            j <= k <= args@.len(),
            options_end(args@, k as int) == options_end(args@, j as int),
            full == has_kind(args@, j as int, k as int, 3),
            has_head == has_kind(args@, j as int, k as int, 1),
            has_tail == has_kind(args@, j as int, k as int, 2),
            string_seq(heads@) == kind_values(args@, j as int, k as int, 1),
            string_seq(tails@) == kind_values(args@, j as int, k as int, 2),
        decreases args@.len() - k,
    {
        match &args[k] {
            QueryArg::Full => {
                full = true;
            },
            QueryArg::Head(v) => {
                has_head = true;
                push_values(&mut heads, v);
            },
            QueryArg::Tail(v) => {
                has_tail = true;
                push_values(&mut tails, v);
            },
            QueryArg::Pattern(_) => {},
        }
        k = k + 1;
    }
    assert(k == options_end(args@, j as int));
    if full {
        Ok(SliceMode::Full)
    } else if has_head {
        flag_args(&heads, SliceFlag::Head)
    } else if has_tail {
        flag_args(&tails, SliceFlag::Tail)
    } else {
        Ok(SliceMode::Full)
    }
}

fn ok_of(r: Result<SliceMode, CliError>) -> (out: SliceMode)
    ensures
        match r {
            Ok(m) => out == m,
            Err(_) => out == SliceMode::Full,
        },
{
    match r {
        Ok(m) => m,
        Err(_) => SliceMode::Full,
    }
}

/// The patterns of a query, each with the slice it is read with. The slice options right
/// after a run of patterns apply to that run: `--full` over `--head` over `--tail`, and a
/// `--head` or `--tail` given twice in a run collects the values of both.
/// Patterns that no slice option follows take the slice options given before the first
/// pattern, or the full file. A malformed `--head` or `--tail` that a run uses is an error.
pub fn query_entries(args: &[QueryArg]) -> (out: Result<Vec<(String, SliceMode)>, CliError>)
    ensures
        match query_entries_result(args@) {
            Ok(es) => out matches Ok(v) && entry_views(v@) == es,
            Err(f) => out matches Err(e) && e@ == f,
        },
{
    let mut i: usize = 0;
    while i < args.len()
        invariant
            i <= args@.len(),
            first_fault(args@, i as int) == first_fault(args@, 0),
        decreases args@.len() - i,
    {
        if !is_pattern_arg(&args[i]) && (i == 0 || is_pattern_arg(&args[i - 1])) {
            match run_mode_at(args, i) {
                Err(e) => return Err(e),
                Ok(_) => {},
            }
        }
        i = i + 1;
    }
    let mut out: Vec<(String, SliceMode)> = Vec::new();
    let mut i: usize = 0;
    while i < args.len()
        invariant
            i <= args@.len(),
            first_fault(args@, 0) is None,
            entry_views(out@) == entries_upto(args@, i as int),
        decreases args@.len() - i,
    {
        match &args[i] {
            QueryArg::Pattern(p) => {
                let e = run_end_at(args, i);
                let mode = if e < args.len() {
                    ok_of(run_mode_at(args, e))
                } else if args.len() > 0 && !is_pattern_arg(&args[0]) {
                    ok_of(run_mode_at(args, 0))
                } else {
                    SliceMode::Full
                };
                let pattern = String::from_str(p.as_str());
                let ghost before = entry_views(out@);
                out.push((pattern, mode));
                proof {
                    assert(entry_views(out@) =~= before.push((p@, pattern_mode(args@, i as int))));
                }
            },
            _ => {},
        }
        i = i + 1;
    }
    Ok(out)
}

/// Why a query produced no output.
#[derive(Debug)]
pub enum QueryError {
    /// None of the patterns matched a file.
    NoFilesMatched,
}

/// A query needs at least one matched file.
pub fn check_matches(count: usize) -> (out: Result<(), QueryError>)
    ensures
        out is Err <==> count == 0,
{
    if count == 0 {
        Err(QueryError::NoFilesMatched)
    } else {
        Ok(())
    }
}

impl QueryError {
    /// The message reported for the error.
    pub fn message(&self) -> (out: String)
        ensures
            out@ == "No files matched the given patterns"@,
    {
        String::from_str("No files matched the given patterns")
    }
}

impl CliError {
    /// The message reported for the error.
    pub fn message(&self) -> (out: String)
        ensures
            out@ == match self@ {
                CliFault::ArgsRequired(SliceFlag::Head) => "Invalid syntax: --head requires N and unit (lines/chars)"@,
                CliFault::ArgsRequired(SliceFlag::Tail) => "Invalid syntax: --tail requires N and unit (lines/chars)"@,
                CliFault::NotANumber => "Invalid syntax: N must be a number"@,
                CliFault::BadUnit => "Invalid syntax: unit must be 'lines' or 'chars'"@,
            },
    {
        match self {
            CliError::ArgsRequired(SliceFlag::Head) => String::from_str(
                "Invalid syntax: --head requires N and unit (lines/chars)",
            ),
            CliError::ArgsRequired(SliceFlag::Tail) => String::from_str(
                "Invalid syntax: --tail requires N and unit (lines/chars)",
            ),
            CliError::NotANumber => String::from_str("Invalid syntax: N must be a number"),
            CliError::BadUnit => String::from_str("Invalid syntax: unit must be 'lines' or 'chars'"),
        }
    }
}

/// The output of a query: the files sorted by path (files with the same path in their
/// order), in the format, with a token count when asked for.
pub fn compile_output(contents: Vec<FileContent>, format: Format, tokens: bool) -> (out: Result<
    String,
    FormatError,
>)
    requires
        tokens ==> total_chars(contents@) <= usize::MAX,
    ensures
        out matches Ok(s) && exists|sorted: Seq<FileContent>|
            stably_sorted_by_path(sorted, contents@) && s@ == format_text(format, sorted, tokens),
{
    let sorted = sort_by_path(contents);
    let formatter = Formatter::new(format).with_tokens(tokens);
    formatter.format(sorted.as_slice())
}

/// The kinds of failure that the exit status tells apart.
#[derive(Clone, Copy, Debug, PartialEq, Eq, Structural)]
pub enum Failure {
    /// No file matched the patterns.
    NoFilesMatched,
    /// A pattern, option or grabfile line is malformed.
    InvalidSyntax,
    /// Anything else, such as a file that cannot be read.
    Other,
}

/// The exit status of a failure: 1 when no file matched, 2 for invalid syntax, 3
/// otherwise.
pub fn exit_code(failure: Failure) -> (out: u8)
    ensures
        out == match failure {
            Failure::NoFilesMatched => 1u8,
            Failure::InvalidSyntax => 2u8,
            Failure::Other => 3u8,
        },
{
    match failure {
        Failure::NoFilesMatched => 1,
        Failure::InvalidSyntax => 2,
        Failure::Other => 3,
    }
}

/// The overview printed when the command runs without arguments.
pub const HELP_TEXT: &'static str = "grabstuff - Query, slice, and compile content from local files\n\nWHAT IT DOES:\n    grabstuff finds local text files from one or more glob patterns, extracts\n    either the full file or a requested head/tail slice, and combines the\n    results into Markdown, plain text, or JSON. It is meant for quickly building\n    project context that can be saved, copied, or piped into another tool.\n\nWHEN RUN WITH NO ARGUMENTS:\n    grabstuff prints this overview and exits successfully. It does not scan the\n    current directory, read files, create config, write output files, or copy\n    anything to the clipboard until you provide patterns or a subcommand.\n\nUSAGE:\n    grabstuff <PATTERNS>... [OPTIONS]\n    grabstuff run <file.grab>\n    grabstuff init\n\nHOW A QUERY RUNS:\n    1. Loads config from .grabstuff.yaml, then ~/.grabstuff/config.yaml, then\n       built-in defaults.\n    2. Expands each pattern, skipping ignored paths, binary files, and files\n       larger than 10MB.\n    3. Applies the selected slice mode to every matched file.\n    4. Sorts results by path for stable output.\n    5. Formats the result and writes it to stdout, a file, or the clipboard.\n\nEXAMPLES:\n    grabstuff \"src/*.rs\" --head 50 lines\n    grabstuff \"*.md\" --full --output context.md\n    grabstuff \"src/\" \"docs/\" --head 100 lines --copy\n    grabstuff \"Cargo.toml\" --format json --tokens\n    grabstuff run context.grab\n    grabstuff init\n\nPATTERNS:\n    \"src/*.rs\"       Match Rust files directly in src\n    \"src/**/*.rs\"    Match Rust files recursively under src\n    \"docs/\"          Match all files under docs\n    \"Cargo.toml\"     Match one file\n\nOPTIONS:\n    --head <N> <lines|chars>    Take first N lines or characters\n    --tail <N> <lines|chars>    Take last N lines or characters\n    --full                      Include entire file (default)\n    --format <md|plain|json>    Output format (default: config or md)\n    --output <FILE>             Write to file instead of stdout\n    --copy                      Copy to clipboard\n    --tokens                    Display token count in output\n    --ignore <PATTERN>          Exclude files matching pattern\n    --help                      Show this help\n    --version                   Show version\n\nCONFIG:\n    Project config: .grabstuff.yaml\n    Global config:  ~/.grabstuff/config.yaml\n\n    defaults:\n      format: md\n      ignore:\n        - .git/\n        - node_modules/\n        - target/\n        - .env\n\nGRABFILES:\n    A .grab file can store repeated queries:\n\n    --format md\n    --output context.md\n    src/*.rs --head 80 lines\n    docs/ --full\n\n    Run it with: grabstuff run context.grab";

/// The overview printed when the command runs without arguments.
pub fn get_help() -> (out: &'static str)
    ensures
        out@ == HELP_TEXT@,
{
    HELP_TEXT
}

} // verus!
