//! Where compiled output goes, and how large it may be.

use vstd::prelude::*;

use crate::text::{decimal, decimal_chars, push_chars};

verus! {

/// Maximum output size (100MB).
pub const MAX_OUTPUT_SIZE: usize = 100 * 1024 * 1024;

/// Destination for formatted output.
#[derive(Debug)]
pub enum OutputDestination {
    /// Write to standard output.
    Stdout,
    /// Write to a file at the specified path.
    File(String),
    /// Copy to the system clipboard.
    Clipboard,
}

/// Why output was not written.
#[derive(Debug)]
pub enum OutputError {
    /// The output is larger than 100MB; it holds its size in bytes.
    TooLarge(usize),
}

/// Whether output of `len` bytes may be written: at most 100MB.
pub fn check_output_size(len: usize) -> (out: Result<(), OutputError>)
    ensures
        out is Ok <==> len <= MAX_OUTPUT_SIZE,
        out matches Err(OutputError::TooLarge(n)) ==> n == len,
{
    if len > MAX_OUTPUT_SIZE {
        Err(OutputError::TooLarge(len))
    } else {
        Ok(())
    }
}

/// Where output goes: the clipboard when asked to copy, else the output file if one is
/// named, else standard output.
pub fn choose_destination(copy: bool, output: Option<String>) -> (out: OutputDestination)
    ensures
        copy ==> out is Clipboard,
        !copy && output is Some ==> (out matches OutputDestination::File(p) && p@ == output->0@),
        !copy && output is None ==> out is Stdout,
{
    if copy {
        OutputDestination::Clipboard
    } else {
        match output {
            Some(path) => OutputDestination::File(path),
            None => OutputDestination::Stdout,
        }
    }
}

impl OutputError {
    /// The message reported for the error.
    pub fn message(&self) -> (out: String)
        ensures
            match self {
                OutputError::TooLarge(n) => out@ == "Output exceeds maximum size of 100MB ("@ + decimal(
                    *n as nat,
                ) + " bytes)"@,
            },
    {
        match self {
            OutputError::TooLarge(n) => {
                let mut out = String::from_str("Output exceeds maximum size of 100MB (");
                let digits = decimal_chars(*n);
                push_chars(&mut out, digits.as_slice());
                out.append(" bytes)");
                out
            },
        }
    }
}

} // verus!
