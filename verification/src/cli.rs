//! The command line as the program receives it.

use vstd::prelude::*;
use std::path::PathBuf;

verus! {

/// `std::path::PathBuf`, declared so that paths can be carried through;
/// nothing is read from them here.
#[verifier::external_type_specification]
#[verifier::external_body]
pub struct ExPathBuf(PathBuf);

/// What the program was asked to do, and how to answer.
#[derive(Debug)]
pub struct Cli {
    /// Project root override
    pub repo: Option<PathBuf>,
    /// Output format
    pub format: OutputFormat,
    pub command: Command,
}

impl Cli {
    /// Whether answers go out as JSON.
    pub fn is_json(&self) -> (r: bool)
        ensures
            r == (self.format is Json),
    {
        match self.format {
            OutputFormat::Json => true,
            OutputFormat::Text => false,
        }
    }
}

#[derive(Debug, Clone, Copy, PartialEq, Eq, Structural)]
pub enum OutputFormat {
    Json,
    Text,
}

#[derive(Debug)]
pub enum Command {
    /// Analyze build/test output and triage failures
    Triage {
        /// Read error output from a file instead of stdin
        file: Option<PathBuf>,
        /// Read error output from a command (runs it)
        run: Option<Vec<String>>,
    },
    /// Show supported error pattern categories
    Patterns,
}

} // verus!
