//! The command line of the basic `bark` program, which keeps references in a
//! store of its own.
use vstd::prelude::*;

verus! {

/// The command line: one command.
pub struct Cli {
    pub command: Commands,
}

/// The commands of the basic program.
#[allow(inconsistent_fields)]
pub enum Commands {
    /// Add a new reference (reads BibTeX from stdin).
    Add,
    /// List stored references, optionally those with a tag.
    List { tag: Option<String> },
    /// Show full BibTeX entry.
    Show { input: String },
    /// Export references to reference.bib file, optionally those with a tag.
    Export { tag: Option<String> },
    /// Import references from a .bib file.
    Import { filename: String },
    /// Add a tag to a reference.
    Tag { input: String, tag: String },
}

} // verus!
