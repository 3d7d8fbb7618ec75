//! Configuration: the default output format and the ignore patterns, from the project's
//! `.grabstuff.yaml`, else the user's `~/.grabstuff/config.yaml`, else built-in defaults.

use vstd::prelude::*;

use crate::formatter::{format_of_default, Format};
use crate::paths::string_seq;

verus! {

/// Default output format from configuration.
#[derive(Clone, Copy, Debug, PartialEq, Eq, Structural)]
pub enum DefaultFormat {
    /// Markdown format.
    Md,
    /// Plain text format.
    Plain,
    /// JSON format.
    Json,
}

/// Default settings for file matching and output.
#[derive(Clone, Debug)]
pub struct Defaults {
    /// Default output format.
    pub format: DefaultFormat,
    /// Glob patterns for files and directories to ignore.
    pub ignore: Vec<String>,
}

/// Application configuration.
#[derive(Clone, Debug)]
pub struct Config {
    /// Default settings applied to all operations.
    pub defaults: Defaults,
}

/// A configuration as plain values: the default format and the ignore patterns.
pub struct ConfigView {
    pub format: DefaultFormat,
    pub ignore: Seq<Seq<char>>,
}

impl View for Config {
    type V = ConfigView;

    open spec fn view(&self) -> ConfigView {
        ConfigView { format: self.defaults.format, ignore: string_seq(self.defaults.ignore@) }
    }
}

/// The ignore patterns used when the configuration names none.
pub open spec fn standard_ignores() -> Seq<Seq<char>> {
    seq![".git/"@, "node_modules/"@, "target/"@, ".env"@]
}

/// The built-in configuration: Markdown, and the standard ignore patterns.
pub open spec fn default_config() -> ConfigView {
    ConfigView { format: DefaultFormat::Md, ignore: standard_ignores() }
}

/// The output format used when the configuration names none.
pub fn default_format() -> (out: DefaultFormat)
    ensures
        out == DefaultFormat::Md,
{
    DefaultFormat::Md
}

/// The ignore patterns used when the configuration names none: `.git/`, `node_modules/`,
/// `target/` and `.env`.
pub fn default_ignores() -> (out: Vec<String>)
    ensures
        string_seq(out@) == standard_ignores(),
{
    let mut out: Vec<String> = Vec::new();
    out.push(String::from_str(".git/"));
    out.push(String::from_str("node_modules/"));
    out.push(String::from_str("target/"));
    out.push(String::from_str(".env"));
    proof {
        assert(string_seq(out@) =~= standard_ignores());
    }
    out
}

impl Default for Defaults {
    fn default() -> (out: Self)
        ensures
            out.format == DefaultFormat::Md,
            string_seq(out.ignore@) == standard_ignores(),
    {
        Defaults { format: default_format(), ignore: default_ignores() }
    }
}

impl Default for Config {
    fn default() -> (out: Self)
        ensures
            out@ == default_config(),
    {
        Config { defaults: Defaults::default() }
    }
}

impl Config {
    /// The configuration in effect: the project's if there is one, else the user's, else
    /// the built-in one.
    pub fn from_sources(project: Option<Config>, global: Option<Config>) -> (out: Config)
        ensures
            out@ == match project {
                Some(p) => p@,
                None => match global {
                    Some(g) => g@,
                    None => default_config(),
                },
            },
    {
        match project {
            Some(p) => p,
            None => match global {
                Some(g) => g,
                None => Config::default(),
            },
        }
    }

    /// The configured ignore patterns followed by `extra`.
    pub fn ignores_with(&self, extra: &[String]) -> (out: Vec<String>)
        ensures
            string_seq(out@) == string_seq(self.defaults.ignore@) + string_seq(extra@),
    {
        let mut out: Vec<String> = Vec::new();
        let mut i: usize = 0;
        while i < self.defaults.ignore.len()
            invariant
                i <= self.defaults.ignore@.len(),
                string_seq(out@) == string_seq(self.defaults.ignore@).take(i as int),
            decreases self.defaults.ignore@.len() - i,
        {
            let s = copy_string(&self.defaults.ignore[i]);
            let ghost before = string_seq(out@);
            out.push(s);
            proof {
                assert(string_seq(out@) =~= before.push(s@));
                assert(string_seq(out@) =~= string_seq(self.defaults.ignore@).take(i + 1));
            }
            i = i + 1;
        }
        let mut k: usize = 0;
        while k < extra.len()
            invariant
                k <= extra@.len(),
                string_seq(out@) == string_seq(self.defaults.ignore@) + string_seq(extra@).take(k as int),
            decreases extra@.len() - k,
        {
            let s = copy_string(&extra[k]);
            let ghost before = string_seq(out@);
            out.push(s);
            proof {
                assert(string_seq(out@) =~= before.push(s@));
                assert(string_seq(out@) =~= string_seq(self.defaults.ignore@) + string_seq(extra@).take(k + 1));
            }
            k = k + 1;
        }
        proof {
            assert(string_seq(self.defaults.ignore@).take(self.defaults.ignore@.len() as int)
                =~= string_seq(self.defaults.ignore@));
            assert(string_seq(extra@).take(extra@.len() as int) =~= string_seq(extra@));
        }
        out
    }

    /// The output format: the one asked for, else the configured default.
    pub fn output_format(&self, requested: Option<Format>) -> (out: Format)
        ensures
            out == match requested {
                Some(f) => f,
                None => format_of_default(self.defaults.format),
            },
    {
        match requested {
            Some(f) => f,
            None => Format::from(self.defaults.format),
        }
    }
}

fn copy_string(s: &String) -> (out: String)
    ensures
        out@ == s@,
{
    let cs = crate::text::chars_of(s.as_str());
    crate::text::string_from(cs.as_slice())
}

} // verus!
