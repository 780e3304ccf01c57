//! Errors that the library's operations report.

use vstd::prelude::*;

verus! {

/// What went wrong, by kind.
#[derive(Debug)]
pub enum LvmError {
    /// A transport failure while reading a catalog or an installer.
    Network(String),
    /// The catalog listing held no version at all.
    ParseEmpty,
    /// The catalog pattern could not be compiled.
    Pattern(String),
    /// A local file or directory could not be read or written.
    Io(String),
    /// The operation needs the version to be installed, and it is not.
    NotInstalled(String),
    /// A page of size zero was asked for.
    InvalidPageSize,
    /// No backend is registered under the language name.
    UnsupportedLanguage(String),
    /// The running platform has no installer package.
    UnsupportedPlatform(String),
}

} // verus!
