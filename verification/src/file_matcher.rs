//! Which files a glob pattern selects: how a pattern splits into the directory to walk
//! and the glob to match, which paths the ignore patterns exclude, which files are too
//! large or binary, and the order of the result.
//!
//! The caller walks the directories and reads file sizes and leading bytes; each decision
//! about what it finds is made here.

use vstd::prelude::*;

use crate::paths::{components_of, path_components, sort_unique_paths, sorted_unique, string_seq};
use crate::text::{chars_of, string_from};

verus! {

/// Maximum file size to process (10MB).
pub const MAX_FILE_SIZE: u64 = 10 * 1024 * 1024;

/// Number of bytes to check for binary content detection.
pub const BINARY_CHECK_SIZE: usize = 512;

#[verifier::external_type_specification]
#[verifier::external_body]
pub struct ExGlob(globset::Glob);

#[verifier::external_type_specification]
#[verifier::external_body]
pub struct ExGlobSet(globset::GlobSet);

#[verifier::external_type_specification]
#[verifier::external_body]
pub struct ExGlobSetBuilder(globset::GlobSetBuilder);

#[verifier::external_type_specification]
#[verifier::external_body]
pub struct ExGlobError(globset::Error);

/// Whether `globset::GlobBuilder::build` accepts a pattern, built with `*`, `?` and `[..]`
/// kept from matching `/` exactly when `separated` holds.
pub uninterp spec fn glob_valid(pattern: Seq<char>, separated: bool) -> bool;

/// The pattern a `globset::Glob` was built from (what `Glob::glob` returns).
pub uninterp spec fn glob_text(glob: globset::Glob) -> Seq<char>;

/// Whether a `globset::Glob` was built with the `literal_separator` option.
pub uninterp spec fn glob_separated(glob: globset::Glob) -> bool;

/// The globs added to a `globset::GlobSetBuilder`, in order, each as its pattern and its
/// `literal_separator` option.
pub uninterp spec fn builder_globs(builder: globset::GlobSetBuilder) -> Seq<(Seq<char>, bool)>;

/// The globs a `globset::GlobSet` was built from.
pub uninterp spec fn set_globs(set: globset::GlobSet) -> Seq<(Seq<char>, bool)>;

/// Whether `GlobSetBuilder::build` succeeds on these globs.
pub uninterp spec fn globs_build(globs: Seq<(Seq<char>, bool)>) -> bool;

/// Whether a glob pattern, built with the `literal_separator` option as given and
/// globset's other defaults, matches a path.
pub uninterp spec fn glob_matches(pattern: Seq<char>, separated: bool, path: Seq<char>) -> bool;

/// Calls `globset::GlobBuilder::build` on a pattern with the `literal_separator` option
/// set to `separated` (`Glob::new` is the same with the option off): it succeeds exactly on
/// the patterns named valid, and the glob it builds holds the pattern and the option.
#[verifier::external_body]
fn new_glob(pattern: &str, separated: bool) -> (out: Result<globset::Glob, globset::Error>)
    ensures
        out is Ok <==> glob_valid(pattern@, separated),
        out matches Ok(g) ==> glob_text(g) == pattern@ && glob_separated(g) == separated,
{
    globset::GlobBuilder::new(pattern).literal_separator(separated).build()
}

/// Calls `globset::GlobSetBuilder::new`, which starts with no patterns.
#[verifier::external_body]
fn new_builder() -> (out: globset::GlobSetBuilder)
    ensures
        builder_globs(out) == Seq::<(Seq<char>, bool)>::empty(),
{
    globset::GlobSetBuilder::new()
}

/// Calls `globset::GlobSetBuilder::add`, which appends the glob.
#[verifier::external_body]
fn builder_add(builder: &mut globset::GlobSetBuilder, glob: globset::Glob)
    ensures
        builder_globs(*final(builder)) == builder_globs(*old(builder)).push((glob_text(glob), glob_separated(glob))),
{
    builder.add(glob);
}

/// Calls `globset::GlobSetBuilder::build`: whether it succeeds depends on the globs
/// alone, and the set holds the builder's globs.
#[verifier::external_body]
fn builder_build(builder: &globset::GlobSetBuilder) -> (out: Result<globset::GlobSet, globset::Error>)
    ensures
        out is Ok <==> globs_build(builder_globs(*builder)),
        out matches Ok(s) ==> set_globs(s) == builder_globs(*builder),
{
    builder.build()
}

/// Calls `globset::GlobSet::empty`, a set without patterns.
#[verifier::external_body]
fn empty_set() -> (out: globset::GlobSet)
    ensures
        set_globs(out) == Seq::<(Seq<char>, bool)>::empty(),
{
    globset::GlobSet::empty()
}

/// Some pattern of the set matches the path.
pub open spec fn set_matches(globs: Seq<(Seq<char>, bool)>, path: Seq<char>) -> bool {
    exists|i: int| 0 <= i < globs.len() && glob_matches(#[trigger] globs[i].0, globs[i].1, path)
}

/// Calls `globset::GlobSet::is_match`: true exactly when some glob of the set matches.
#[verifier::external_body]
fn set_is_match(set: &globset::GlobSet, path: &str) -> (out: bool)
    ensures
        out == (exists|i: int| 0 <= i < set_globs(*set).len() && glob_matches(#[trigger] set_globs(*set)[i].0, set_globs(*set)[i].1, path@)),
{
    set.is_match(path)
}

/// Calls `globset::GlobSet::is_empty`: true exactly when the set has no patterns.
#[verifier::external_body]
fn set_is_empty(set: &globset::GlobSet) -> (out: bool)
    ensures
        out == (set_globs(*set).len() == 0),
{
    set.is_empty()
}

/// What `Path::strip_prefix` gives: the path relative to `base`, if `base` is a prefix
/// of it component by component.
pub uninterp spec fn path_strip_prefix(path: Seq<char>, base: Seq<char>) -> Option<Seq<char>>;

/// Calls `Path::strip_prefix`; its result is named `path_strip_prefix`.
#[verifier::external_body]
fn strip_prefix(path: &str, base: &str) -> (out: Option<String>)
    ensures
        out is Some <==> path_strip_prefix(path@, base@) is Some,
        out matches Some(r) ==> path_strip_prefix(path@, base@) == Some(r@),
{
    std::path::Path::new(path).strip_prefix(base).ok().map(|r| r.to_string_lossy().into_owned())
}

/// What `Path::parent` gives: the path without its last component, if it has one.
pub uninterp spec fn path_parent(path: Seq<char>) -> Option<Seq<char>>;

/// Calls `Path::parent`; its result is named `path_parent`.
#[verifier::external_body]
fn parent_of(path: &str) -> (out: Option<String>)
    ensures
        out is Some <==> path_parent(path@) is Some,
        out matches Some(p) ==> path_parent(path@) == Some(p@),
{
    std::path::Path::new(path).parent().map(|p| p.to_string_lossy().into_owned())
}

/// What `Path::file_name` gives: the last component, unless the path ends in `..`.
pub uninterp spec fn path_file_name(path: Seq<char>) -> Option<Seq<char>>;

/// Calls `Path::file_name`; its result is named `path_file_name`.
#[verifier::external_body]
fn file_name_of(path: &str) -> (out: Option<String>)
    ensures
        out is Some <==> path_file_name(path@) is Some,
        out matches Some(n) ==> path_file_name(path@) == Some(n@),
{
    std::path::Path::new(path).file_name().map(|n| n.to_string_lossy().into_owned())
}

/// Calls `memchr::memchr`: the index of the first occurrence of the byte, if any.
#[verifier::external_body]
fn first_index_of(needle: u8, haystack: &[u8]) -> (out: Option<usize>)
    ensures
        match out {
            Some(i) => i < haystack@.len() && haystack@[i as int] == needle && forall|j: int|
                0 <= j < i ==> haystack@[j] != needle,
            None => forall|j: int| 0 <= j < haystack@.len() ==> haystack@[j] != needle,
        },
{
    memchr::memchr(needle, haystack)
}

/// `p` with all trailing `/` removed.
pub open spec fn trim_slashes(p: Seq<char>) -> Seq<char>
    decreases p.len(),
{
    if p.len() > 0 && p.last() == '/' {
        trim_slashes(p.drop_last())
    } else {
        p
    }
}

/// An ignore pattern as it is compiled: a directory pattern (`dir/`) or a bare name
/// (neither `/` nor `*`) matches at any depth.
pub open spec fn normalized_ignore(p: Seq<char>) -> Seq<char> {
    if p.len() > 0 && p.last() == '/' {
        "**/"@ + trim_slashes(p)
    } else if !p.contains('/') && !p.contains('*') {
        "**/"@ + p
    } else {
        p
    }
}

/// The normalized ignore patterns that globset accepts, in order.
pub open spec fn accepted_ignores(ps: Seq<Seq<char>>) -> Seq<(Seq<char>, bool)>
    decreases ps.len(),
{
    if ps.len() == 0 {
        Seq::empty()
    } else {
        let prev = accepted_ignores(ps.drop_last());
        if glob_valid(normalized_ignore(ps.last()), false) {
            prev.push((normalized_ignore(ps.last()), false))
        } else {
            prev
        }
    }
}

/// The patterns of the ignore set: the accepted normalized patterns, or none when the
/// set cannot be built from them.
pub open spec fn ignore_set_globs(ps: Seq<Seq<char>>) -> Seq<(Seq<char>, bool)> {
    if globs_build(accepted_ignores(ps)) {
        accepted_ignores(ps)
    } else {
        Seq::empty()
    }
}

/// A path is ignored when an ignore pattern matches it or one of its components.
pub open spec fn ignored(patterns: Seq<(Seq<char>, bool)>, path: Seq<char>) -> bool {
    ||| set_matches(patterns, path)
    ||| exists|k: int| 0 <= k < path_components(path).len() && set_matches(patterns, #[trigger] path_components(path)[k])
}

/// Matches files against glob patterns while respecting ignore rules.
pub struct FileMatcher {
    ignore_set: globset::GlobSet,
}

/// A pattern's glob, compiled.
pub struct PatternGlob {
    set: globset::GlobSet,
}

/// Why a pattern cannot be used.
#[derive(Debug)]
pub enum MatchError {
    /// The glob part of the pattern is not a valid glob: the glob, and globset's account
    /// of what is wrong with it.
    InvalidGlob { glob: String, reason: String },
}

impl View for MatchError {
    type V = Seq<char>;

    /// The glob that was refused.
    open spec fn view(&self) -> Seq<char> {
        match self {
            MatchError::InvalidGlob { glob, .. } => glob@,
        }
    }
}

/// Calls `Display::fmt` of `globset::Error` through `to_string`: the description of the
/// error. What the text says is not stated.
#[verifier::external_body]
fn error_text(e: &globset::Error) -> String {
    e.to_string()
}

fn normalize_ignore(pattern: &str) -> (out: String)
    ensures
        out@ == normalized_ignore(pattern@),
{
    let cs = chars_of(pattern);
    if cs.len() > 0 && cs[cs.len() - 1] == '/' {
        let mut end = cs.len();
        proof {
            assert(cs@.take(cs@.len() as int) =~= cs@);
        }
        while end > 0 && cs[end - 1] == '/'
            invariant
                end <= cs@.len(),
                trim_slashes(cs@.take(end as int)) == trim_slashes(cs@),
            decreases end,
        {
            proof {
                assert(cs@.take(end as int).drop_last() =~= cs@.take(end - 1));
            }
            end = end - 1;
        }
        proof {
            assert(cs@.take(cs@.len() as int) =~= cs@);
        }
        let mut out = String::from_str("**/");
        let kept = vstd::slice::slice_subrange(cs.as_slice(), 0, end);
        proof {
            assert(kept@ =~= cs@.take(end as int));
        }
        crate::text::push_chars(&mut out, kept);
        out
    } else if !contains_char(cs.as_slice(), '/') && !contains_char(cs.as_slice(), '*') {
        let mut out = String::from_str("**/");
        crate::text::push_chars(&mut out, cs.as_slice());
        out
    } else {
        string_from(cs.as_slice())
    }
}

fn contains_char(cs: &[char], c: char) -> (out: bool)
    ensures
        out == cs@.contains(c),
{
    let mut i: usize = 0;
    while i < cs.len()
        invariant
            i <= cs@.len(),
            forall|j: int| 0 <= j < i ==> cs@[j] != c,
        decreases cs@.len() - i,
    {
        if cs[i] == c {
            return true;
        }
        i = i + 1;
    }
    false
}

/// Builds the set of ignore globs: each pattern normalized, those globset rejects left
/// out, and an empty set if the whole set cannot be built.
fn build_globset(patterns: &[String]) -> (out: globset::GlobSet)
    ensures
        set_globs(out) == ignore_set_globs(string_seq(patterns@)),
{
    let mut builder = new_builder();
    let mut i: usize = 0;
    while i < patterns.len()
        invariant
            i <= patterns@.len(),
            builder_globs(builder) == accepted_ignores(string_seq(patterns@).take(i as int)),
        decreases patterns@.len() - i,
    {
        proof {
            assert(string_seq(patterns@).take(i + 1).drop_last() =~= string_seq(patterns@).take(i as int));
        }
        let normalized = normalize_ignore(patterns[i].as_str());
        match new_glob(normalized.as_str(), false) {
            Ok(glob) => {
                builder_add(&mut builder, glob);
            },
            Err(_) => {},
        }
        i = i + 1;
    }
    proof {
        assert(string_seq(patterns@).take(patterns@.len() as int) =~= string_seq(patterns@));
    }
    match builder_build(&builder) {
        Ok(set) => set,
        Err(_) => empty_set(),
    }
}

impl FileMatcher {
    /// The patterns of the ignore set.
    pub closed spec fn ignore_globs(&self) -> Seq<(Seq<char>, bool)> {
        set_globs(self.ignore_set)
    }

    /// Creates a new `FileMatcher` with the specified ignore patterns.
    pub fn new(ignore_patterns: &[String]) -> (out: Self)
        ensures
            out.ignore_globs() == ignore_set_globs(string_seq(ignore_patterns@)),
    {
        FileMatcher { ignore_set: build_globset(ignore_patterns) }
    }

    /// Whether the ignore set holds no pattern.
    pub fn has_no_ignores(&self) -> (out: bool)
        ensures
            out == (self.ignore_globs().len() == 0),
    {
        set_is_empty(&self.ignore_set)
    }

    /// Whether the ignore rules exclude a path.
    pub fn is_ignored(&self, path: &str) -> (out: bool)
        ensures
            out == ignored(self.ignore_globs(), path@),
    {
        if set_is_match(&self.ignore_set, path) {
            return true;
        }
        let components = components_of(path);
        let ghost comps = path_components(path@);
        let mut k: usize = 0;
        while k < components.len()
            invariant
                k <= components@.len(),
                components@.map_values(|c: String| c@) == comps,
                comps == path_components(path@),
                forall|j: int| 0 <= j < k ==> !set_matches(set_globs(self.ignore_set), #[trigger] comps[j]),
            decreases components@.len() - k,
        {
            if set_is_match(&self.ignore_set, components[k].as_str()) {
                proof {
                    assert(comps[k as int] == components@[k as int]@);
                }
                return true;
            }
            proof {
                assert(comps[k as int] == components@[k as int]@);
            }
            k = k + 1;
        }
        false
    }

    /// Compiles the glob part of a pattern; in it `*`, `?` and `[..]` do not match `/`, so
    /// `src/*.rs` selects only the files directly in `src`.
    pub fn compile_glob(glob: &str) -> (out: Result<PatternGlob, MatchError>)
        ensures
            match out {
                Ok(g) => glob_valid(glob@, true) && globs_build(seq![(glob@, true)]) && g.pattern_globs() == seq![
                    (glob@, true),
                ],
                Err(e) => e@ == glob@ && !(glob_valid(glob@, true) && globs_build(seq![(glob@, true)])),
            },
    {
        let compiled = match new_glob(glob, true) {
            Ok(g) => g,
            Err(e) => return Err(MatchError::InvalidGlob { glob: String::from_str(glob), reason: error_text(&e) }),
        };
        let mut builder = new_builder();
        builder_add(&mut builder, compiled);
        proof {
            assert(builder_globs(builder) =~= seq![(glob@, true)]);
        }
        match builder_build(&builder) {
            Ok(set) => Ok(PatternGlob { set }),
            Err(e) => Err(MatchError::InvalidGlob { glob: String::from_str(glob), reason: error_text(&e) }),
        }
    }

    /// Whether a file found while walking `base` is selected: the glob matches its path
    /// relative to `base` (or its whole path), and the ignore rules do not exclude it.
    pub fn accepts(&self, glob: &PatternGlob, base: &str, path: &str) -> (out: bool)
        ensures
            out == ((set_matches(glob.pattern_globs(), relative_path(path@, base@)) || set_matches(
                glob.pattern_globs(),
                path@,
            )) && !ignored(self.ignore_globs(), path@)),
    {
        let relative = match strip_prefix(path, base) {
            Some(r) => r,
            None => String::from_str(path),
        };
        if !glob.matches(relative.as_str()) && !glob.matches(path) {
            return false;
        }
        !self.is_ignored(path)
    }

    /// The files found, sorted by path with each path once.
    pub fn match_patterns(&self, found: Vec<String>) -> (out: Vec<String>)
        ensures
            sorted_unique(string_seq(out@), string_seq(found@)),
    {
        sort_unique_paths(found)
    }
}

/// A path relative to the walked directory, or the path itself when it is not under it.
pub open spec fn relative_path(path: Seq<char>, base: Seq<char>) -> Seq<char> {
    match path_strip_prefix(path, base) {
        Some(r) => r,
        None => path,
    }
}

impl PatternGlob {
    /// The patterns of the compiled glob.
    pub closed spec fn pattern_globs(&self) -> Seq<(Seq<char>, bool)> {
        set_globs(self.set)
    }

    /// Whether the glob matches a path.
    pub fn matches(&self, path: &str) -> (out: bool)
        ensures
            out == set_matches(self.pattern_globs(), path@),
    {
        set_is_match(&self.set, path)
    }
}

/// A file no larger than 10MB is processed.
pub fn within_size_limit(size: u64) -> (out: bool)
    ensures
        out == (size <= MAX_FILE_SIZE),
{
    size <= MAX_FILE_SIZE
}

/// A file whose first bytes hold a zero byte is binary.
pub fn looks_binary(head: &[u8]) -> (out: bool)
    ensures
        out == head@.contains(0u8),
{
    match first_index_of(0, head) {
        Some(i) => {
            proof {
                assert(head@[i as int] == 0u8);
            }
            true
        },
        None => false,
    }
}

/// The characters that start a glob: `*`, `?`, `[` and `{`.
pub open spec fn is_glob_char(c: char) -> bool {
    c == '*' || c == '?' || c == '[' || c == '{'
}

/// The position of the first glob character of `p` at or after `i`.
pub open spec fn first_glob_from(p: Seq<char>, i: nat) -> Option<nat>
    decreases p.len() - i,
{
    if i >= p.len() {
        None
    } else if is_glob_char(p[i as int]) {
        Some(i)
    } else {
        first_glob_from(p, i + 1)
    }
}

/// One past the last `/` among the first `k` characters of `p`, or 0 if there is none.
pub open spec fn slash_end(p: Seq<char>, k: nat) -> nat
    decreases k,
{
    if k == 0 {
        0
    } else if p[k - 1] == '/' {
        k
    } else {
        slash_end(p, (k - 1) as nat)
    }
}

/// How a pattern splits into the directory to walk and the glob to match there:
/// - `dir/` walks `dir/` and matches everything below it;
/// - a pattern with glob characters walks the directory before the last `/` that
///   precedes the first of them (or `.`), and matches the rest;
/// - a pattern without them that names a directory walks it and matches everything;
/// - any other pattern walks its parent directory (`.` if it has none) and matches its
///   file name.
/// There is no split where a file name is needed and the path ends in `..`.
pub open spec fn split_pattern(p: Seq<char>, is_dir: bool) -> Option<(Seq<char>, Seq<char>)> {
    if p.len() > 0 && p.last() == '/' {
        Some((p, "**/*"@))
    } else {
        match first_glob_from(p, 0) {
            Some(idx) => {
                let e = slash_end(p, idx);
                if e > 0 {
                    Some((p.take(e - 1), p.skip(e as int)))
                } else {
                    Some(("."@, p))
                }
            },
            None => if is_dir {
                Some((p, "**/*"@))
            } else {
                match path_parent(p) {
                    None => Some(("."@, p)),
                    Some(parent) => match path_file_name(p) {
                        Some(name) => Some((if parent.len() == 0 { "."@ } else { parent }, name)),
                        None => None,
                    },
                }
            },
        }
    }
}

proof fn lemma_first_glob_bounds(p: Seq<char>, i: nat)
    ensures
        first_glob_from(p, i) matches Some(k) ==> i <= k < p.len(),
    decreases p.len() - i,
{
    if i < p.len() && !is_glob_char(p[i as int]) {
        lemma_first_glob_bounds(p, i + 1);
    }
}

proof fn lemma_slash_end_bounds(p: Seq<char>, k: nat)
    ensures
        slash_end(p, k) <= k,
    decreases k,
{
    if k > 0 {
        lemma_slash_end_bounds(p, (k - 1) as nat);
    }
}

fn first_glob(cs: &[char]) -> (out: Option<usize>)
    ensures
        match first_glob_from(cs@, 0) {
            Some(i) => out == Some(i as usize),
            None => out is None,
        },
{
    let mut i: usize = 0;
    while i < cs.len()
        invariant
            i <= cs@.len(),
            first_glob_from(cs@, i as nat) == first_glob_from(cs@, 0),
        decreases cs@.len() - i,
    {
        let c = cs[i];
        if c == '*' || c == '?' || c == '[' || c == '{' {
            return Some(i);
        }
        i = i + 1;
    }
    None
}

fn last_slash_end(cs: &[char], k: usize) -> (out: usize)
    requires
        k <= cs@.len(),
    ensures
        out == slash_end(cs@, k as nat),
{
    let mut j = k;
    while j > 0 && cs[j - 1] != '/'
        invariant
            j <= k,
            k <= cs@.len(),
            slash_end(cs@, j as nat) == slash_end(cs@, k as nat),
        decreases j,
    {
        j = j - 1;
    }
    j
}

proof fn lemma_first_glob_from(p: Seq<char>, i: nat)
    ensures
        match first_glob_from(p, i) {
            Some(k) => i <= k < p.len() && is_glob_char(p[k as int]) && forall|j: int|
                i <= j < k ==> !is_glob_char(#[trigger] p[j]),
            None => forall|j: int| i <= j < p.len() ==> !is_glob_char(#[trigger] p[j]),
        },
    decreases p.len() - i,
{
    if i < p.len() && !is_glob_char(p[i as int]) {
        lemma_first_glob_from(p, i + 1);
    }
}

proof fn lemma_slash_end(p: Seq<char>, k: nat)
    requires
        k <= p.len(),
    ensures
        slash_end(p, k) <= k,
        slash_end(p, k) > 0 ==> p[slash_end(p, k) - 1] == '/',
    decreases k,
{
    if k > 0 && p[k - 1] != '/' {
        lemma_slash_end(p, (k - 1) as nat);
    }
}

/// A pattern that holds a glob character (`*`, `?`, `[` or `{`) and does not end in `/`
/// is walked from a directory whose name holds none of them: the part before the last
/// `/` ahead of the first glob character, with the rest as the glob, or `.` with the
/// whole pattern as the glob.
pub proof fn lemma_split_base_has_no_glob(p: Seq<char>, is_dir: bool)
    requires
        !(p.len() > 0 && p.last() == '/'),
        exists|i: int|
            0 <= i < p.len() && (#[trigger] p[i] == '*' || p[i] == '?' || p[i] == '[' || p[i]
                == '{'),
    ensures
        split_pattern(p, is_dir) is Some,
        split_pattern(p, is_dir) matches Some((base, glob)) ==> {
            &&& forall|i: int|
                0 <= i < base.len() ==> !(#[trigger] base[i] == '*' || base[i] == '?' || base[i]
                    == '[' || base[i] == '{')
            &&& (base == "."@ && glob == p) || p == base + seq!['/'] + glob
        },
{
    reveal_strlit(".");
    lemma_first_glob_from(p, 0);
    let w = choose|i: int|
        0 <= i < p.len() && (#[trigger] p[i] == '*' || p[i] == '?' || p[i] == '[' || p[i] == '{');
    assert(is_glob_char(p[w]));
    match first_glob_from(p, 0) {
        Some(idx) => {
            lemma_slash_end(p, idx);
            let e = slash_end(p, idx);
            if e > 0 {
                let base = p.take(e - 1);
                assert forall|i: int| 0 <= i < base.len() implies !(#[trigger] base[i] == '*'
                    || base[i] == '?' || base[i] == '[' || base[i] == '{') by {
                    assert(base[i] == p[i]);
                    assert(!is_glob_char(p[i]));
                }
                assert(p =~= base + seq!['/'] + p.skip(e as int));
            }
        },
        None => {
            assert(!is_glob_char(p[w]));
        },
    }
}

/// Splits a pattern into the directory to walk and the glob to match there; `is_dir`
/// tells whether the pattern names an existing directory.
pub fn parse_pattern(pattern: &str, is_dir: bool) -> (out: (String, String))
    requires
        split_pattern(pattern@, is_dir) is Some,
    ensures
        split_pattern(pattern@, is_dir) == Some((out.0@, out.1@)),
{
    let cs = chars_of(pattern);
    if cs.len() > 0 && cs[cs.len() - 1] == '/' {
        return (String::from_str(pattern), String::from_str("**/*"));
    }
    match first_glob(cs.as_slice()) {
        Some(idx) => {
            proof {
                lemma_first_glob_bounds(cs@, 0);
                lemma_slash_end_bounds(cs@, idx as nat);
            }
            let e = last_slash_end(cs.as_slice(), idx);
            if e > 0 {
                let base = vstd::slice::slice_subrange(cs.as_slice(), 0, e - 1);
                let glob = vstd::slice::slice_subrange(cs.as_slice(), e, cs.len());
                proof {
                    assert(base@ =~= cs@.take(e - 1));
                    assert(glob@ =~= cs@.skip(e as int));
                }
                (string_from(base), string_from(glob))
            } else {
                (String::from_str("."), String::from_str(pattern))
            }
        },
        None => {
            if is_dir {
                (String::from_str(pattern), String::from_str("**/*"))
            } else {
                match parent_of(pattern) {
                    None => (String::from_str("."), String::from_str(pattern)),
                    Some(parent) => {
                        let name = match file_name_of(pattern) {
                            Some(name) => name,
                            None => {
                                return (String::new(), String::new());
                            },
                        };
                        if parent.as_str().is_empty() {
                            (String::from_str("."), name)
                        } else {
                            (parent, name)
                        }
                    },
                }
            }
        },
    }
}

/// Splits a pattern as `parse_pattern` does, or gives `None` where that has no split:
/// a pattern that is neither a glob nor a directory and ends in `..`.
pub fn try_parse_pattern(pattern: &str, is_dir: bool) -> (out: Option<(String, String)>)
    ensures
        match split_pattern(pattern@, is_dir) {
            Some((base, glob)) => out matches Some(r) && r.0@ == base && r.1@ == glob,
            None => out is None,
        },
{
    let cs = chars_of(pattern);
    let literal = !(cs.len() > 0 && cs[cs.len() - 1] == '/') && first_glob(cs.as_slice()).is_none();
    if literal && !is_dir && parent_of(pattern).is_some() && file_name_of(pattern).is_none() {
        return None;
    }
    Some(parse_pattern(pattern, is_dir))
}

proof fn lemma_slash_end_is_slash(p: Seq<char>, k: nat)
    requires
        k <= p.len(),
    ensures
        slash_end(p, k) > 0 ==> p[slash_end(p, k) - 1] == '/',
        forall|i: int| slash_end(p, k) <= i < k ==> p[i] != '/',
    decreases k,
{
    if k > 0 && p[k - 1] != '/' {
        lemma_slash_end_is_slash(p, (k - 1) as nat);
    }
}

/// A pattern with glob characters that does not end with `/` splits at the last `/` before
/// its first glob character: the directory, a `/` and the glob give the pattern back, and
/// the glob holds no `/` before its first glob character; without such a `/` the directory
/// is `.` and the glob is the whole pattern. Whether the pattern names a directory plays no
/// part.
pub proof fn lemma_glob_pattern_split(p: Seq<char>, is_dir: bool)
    requires
        first_glob_from(p, 0) is Some,
        !(p.len() > 0 && p.last() == '/'),
    ensures
        ({
            let g = first_glob_from(p, 0)->0;
            match split_pattern(p, is_dir) {
                Some((base, glob)) => if p.take(g as int).contains('/') {
                    &&& base + seq!['/'] + glob == p
                    &&& forall|i: int| 0 <= i < glob.len() && i < glob.len() - (p.len() - g) ==> glob[i] != '/'
                } else {
                    base == "."@ && glob == p
                },
                None => false,
            }
        }),
        split_pattern(p, is_dir) == split_pattern(p, !is_dir),
{
    let g = first_glob_from(p, 0)->0;
    lemma_first_glob_bounds(p, 0);
    lemma_slash_end_bounds(p, g);
    lemma_slash_end_is_slash(p, g);
    let e = slash_end(p, g);
    if e > 0 {
        assert(p.take(g as int)[e - 1] == '/');
        assert(p.take(e - 1) + seq!['/'] + p.skip(e as int) =~= p);
    } else {
        assert(!p.take(g as int).contains('/')) by {
            if p.take(g as int).contains('/') {
                let i = choose|i: int| 0 <= i < g && p.take(g as int)[i] == '/';
                assert(p[i] == '/');
            }
        }
    }
}

} // verus!
