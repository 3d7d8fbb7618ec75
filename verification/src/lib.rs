//! Selecting, slicing and compiling the text of local files.

pub mod cli;
pub mod config;
pub mod decode;
pub mod file_matcher;
pub mod formatter;
pub mod grabfile;
pub mod output;
pub mod paths;
pub mod slice_laws;
pub mod slicer;
pub mod text;
