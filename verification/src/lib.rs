//! A reference manager for BibTeX entries: the BibTeX reader, the rules of the
//! reference service and the decisions of its command line.
pub mod text;
pub mod bibtex;
pub mod reference;
pub mod service;
pub mod cli;
pub mod sync_cli;
pub mod basic_cli;
