//! The errors of each layer, and how one layer's error becomes the next's.

use crate::session::{Failure, FailureKind, FailureView};
use crate::text::concat;
use vstd::prelude::*;
use vstd::string::*;

verus! {

/// What went wrong in a package's file structure.
#[derive(Debug, PartialEq, Eq)]
pub enum FileStructureError {
    FileCreateError(String),
    FileDeleteError(String),
    SymLinkError(String),
    FileCopyError(String),
    NoPermission,
    Other(String),
}

/// What a [`FileStructureError`] holds, each text as the sequence of its characters.
pub enum FileStructureErrorView {
    FileCreateError(Seq<char>),
    FileDeleteError(Seq<char>),
    SymLinkError(Seq<char>),
    FileCopyError(Seq<char>),
    NoPermission,
    Other(Seq<char>),
}

impl View for FileStructureError {
    type V = FileStructureErrorView;

    open spec fn view(&self) -> FileStructureErrorView {
        match self {
            FileStructureError::FileCreateError(m) => FileStructureErrorView::FileCreateError(m@),
            FileStructureError::FileDeleteError(m) => FileStructureErrorView::FileDeleteError(m@),
            FileStructureError::SymLinkError(m) => FileStructureErrorView::SymLinkError(m@),
            FileStructureError::FileCopyError(m) => FileStructureErrorView::FileCopyError(m@),
            FileStructureError::NoPermission => FileStructureErrorView::NoPermission,
            FileStructureError::Other(m) => FileStructureErrorView::Other(m@),
        }
    }
}

/// Why a command on packages failed.
#[derive(Clone, Copy, Debug, PartialEq, Eq, Structural)]
pub enum ExecuteError {
    /// A package depends on a name that no known package has.
    NoDependFound,
    /// A package could not be built or installed.
    CompileFail,
    /// A package could not be uninstalled.
    UninstallFail,
    /// The dependencies of a package lead back to a package on the way.
    CyclicDepend,
}

/// What went wrong with one package.
#[derive(Debug, PartialEq, Eq)]
pub enum ParseError {
    NoVersion,
    NoDirectory(String),
    AlreadyInstalled,
    NotInstalled,
    NoInstallScript,
    FailedInstallScript,
    NoDepends,
    Other(String),
}

/// What a [`ParseError`] holds, each text as the sequence of its characters.
pub enum ParseErrorView {
    NoVersion,
    NoDirectory(Seq<char>),
    AlreadyInstalled,
    NotInstalled,
    NoInstallScript,
    FailedInstallScript,
    NoDepends,
    Other(Seq<char>),
}

impl View for ParseError {
    type V = ParseErrorView;

    open spec fn view(&self) -> ParseErrorView {
        match self {
            ParseError::NoVersion => ParseErrorView::NoVersion,
            ParseError::NoDirectory(m) => ParseErrorView::NoDirectory(m@),
            ParseError::AlreadyInstalled => ParseErrorView::AlreadyInstalled,
            ParseError::NotInstalled => ParseErrorView::NotInstalled,
            ParseError::NoInstallScript => ParseErrorView::NoInstallScript,
            ParseError::FailedInstallScript => ParseErrorView::FailedInstallScript,
            ParseError::NoDepends => ParseErrorView::NoDepends,
            ParseError::Other(m) => ParseErrorView::Other(m@),
        }
    }
}

/// Why the binaries of a built package could not be published.
#[derive(Clone, Copy, Debug, PartialEq, Eq, Structural)]
pub enum BuildError {
    LinkError,
}

impl View for BuildError {
    type V = BuildError;

    open spec fn view(&self) -> BuildError {
        *self
    }
}

impl View for ExecuteError {
    type V = ExecuteError;

    open spec fn view(&self) -> ExecuteError {
        *self
    }
}

/// Why a repository could not be updated.
#[derive(Debug, PartialEq, Eq)]
pub enum UpdateError {
    NoUpdateScript,
    UpdateScriptError,
    PackageUpdateError(String),
}

/// What a [`UpdateError`] holds, each text as the sequence of its characters.
pub enum UpdateErrorView {
    NoUpdateScript,
    UpdateScriptError,
    PackageUpdateError(Seq<char>),
}

impl View for UpdateError {
    type V = UpdateErrorView;

    open spec fn view(&self) -> UpdateErrorView {
        match self {
            UpdateError::NoUpdateScript => UpdateErrorView::NoUpdateScript,
            UpdateError::UpdateScriptError => UpdateErrorView::UpdateScriptError,
            UpdateError::PackageUpdateError(m) => UpdateErrorView::PackageUpdateError(m@),
        }
    }
}

/// What the `{:?}` form of a text is: the text between double quotes, with
/// the characters escaped that a string literal would have to escape.
pub uninterp spec fn debug_quoted(text: Seq<char>) -> Seq<char>;

/// The `{:?}` form of `text`, by `format!`: `Debug` for `str` of the standard
/// library. It depends on the characters of `text` alone.
#[verifier::external_body]
fn quote(text: &str) -> (out: String)
    ensures
        out@ == debug_quoted(text@),
{
    format!("{:?}", text)
}

/// `name`, then the `{:?}` form of `message` in round brackets: the `{:?}`
/// form of an enum variant that holds one text.
pub open spec fn tagged(name: Seq<char>, message: Seq<char>) -> Seq<char> {
    name + "("@ + debug_quoted(message) + ")"@
}

/// The name of a variant and, in round brackets, the `{:?}` form of the text
/// that it holds.
fn tag(name: &str, message: &str) -> (out: String)
    ensures
        out@ == tagged(name@, message@),
{
    let mut out = concat(name, "(");
    let quoted = quote(message);
    out.append(quoted.as_str());
    out.append(")");
    out
}

impl FileStructureErrorView {
    /// How a file system failure is classed by its kind.
    pub open spec fn from_failure(failure: FailureView) -> FileStructureErrorView {
        match failure.kind {
            FailureKind::AlreadyExists => FileStructureErrorView::FileCreateError(failure.message),
            FailureKind::NotFound => FileStructureErrorView::FileDeleteError(failure.message),
            FailureKind::PermissionDenied => FileStructureErrorView::NoPermission,
            FailureKind::Other => FileStructureErrorView::Other(failure.message),
        }
    }

    /// The `{:?}` form of the error.
    pub open spec fn text(self) -> Seq<char> {
        match self {
            FileStructureErrorView::FileCreateError(m) => tagged("FileCreateError"@, m),
            FileStructureErrorView::FileDeleteError(m) => tagged("FileDeleteError"@, m),
            FileStructureErrorView::SymLinkError(m) => tagged("SymLinkError"@, m),
            FileStructureErrorView::FileCopyError(m) => tagged("FileCopyError"@, m),
            FileStructureErrorView::NoPermission => "NoPermission"@,
            FileStructureErrorView::Other(m) => tagged("Other"@, m),
        }
    }
}

impl FileStructureError {
    /// Classes a file system failure by its kind.
    pub fn from_failure(failure: Failure) -> (out: FileStructureError)
        ensures
            out@ == FileStructureErrorView::from_failure(failure@),
    {
        match failure.kind {
            FailureKind::AlreadyExists => FileStructureError::FileCreateError(failure.message),
            FailureKind::NotFound => FileStructureError::FileDeleteError(failure.message),
            FailureKind::PermissionDenied => FileStructureError::NoPermission,
            FailureKind::Other => FileStructureError::Other(failure.message),
        }
    }

    /// The error as one line of text: its `{:?}` form.
    pub fn to_string(&self) -> (out: String)
        ensures
            out@ == self@.text(),
    {
        match self {
            FileStructureError::FileCreateError(m) => tag("FileCreateError", m.as_str()),
            FileStructureError::FileDeleteError(m) => tag("FileDeleteError", m.as_str()),
            FileStructureError::SymLinkError(m) => tag("SymLinkError", m.as_str()),
            FileStructureError::FileCopyError(m) => tag("FileCopyError", m.as_str()),
            FileStructureError::NoPermission => String::from_str("NoPermission"),
            FileStructureError::Other(m) => tag("Other", m.as_str()),
        }
    }
}

impl BuildError {
    /// The `{:?}` form of the error.
    pub open spec fn text(self) -> Seq<char> {
        "LinkError"@
    }

    /// The error as one line of text: its `{:?}` form.
    pub fn to_string(&self) -> (out: String)
        ensures
            out@ == self.text(),
    {
        String::from_str("LinkError")
    }
}

impl ExecuteError {
    /// The `{:?}` form of the error.
    pub open spec fn text(self) -> Seq<char> {
        match self {
            ExecuteError::NoDependFound => "NoDependFound"@,
            ExecuteError::CompileFail => "CompileFail"@,
            ExecuteError::UninstallFail => "UninstallFail"@,
            ExecuteError::CyclicDepend => "CyclicDepend"@,
        }
    }

    /// The error as one line of text: its `{:?}` form.
    pub fn to_string(&self) -> (out: String)
        ensures
            out@ == self.text(),
    {
        match self {
            ExecuteError::NoDependFound => String::from_str("NoDependFound"),
            ExecuteError::CompileFail => String::from_str("CompileFail"),
            ExecuteError::UninstallFail => String::from_str("UninstallFail"),
            ExecuteError::CyclicDepend => String::from_str("CyclicDepend"),
        }
    }
}

impl ParseErrorView {
    /// How a file system failure is classed by its kind.
    pub open spec fn from_failure(failure: FailureView) -> ParseErrorView {
        match failure.kind {
            FailureKind::NotFound => ParseErrorView::NoDirectory(failure.message),
            _ => ParseErrorView::Other(failure.message),
        }
    }

    /// A link error, seen from the package: `Other` with its `{:?}` form.
    pub open spec fn from_build(error: BuildError) -> ParseErrorView {
        ParseErrorView::Other(error.text())
    }

    /// The `{:?}` form of the error.
    pub open spec fn text(self) -> Seq<char> {
        match self {
            ParseErrorView::NoVersion => "NoVersion"@,
            ParseErrorView::NoDirectory(m) => tagged("NoDirectory"@, m),
            ParseErrorView::AlreadyInstalled => "AlreadyInstalled"@,
            ParseErrorView::NotInstalled => "NotInstalled"@,
            ParseErrorView::NoInstallScript => "NoInstallScript"@,
            ParseErrorView::FailedInstallScript => "FailedInstallScript"@,
            ParseErrorView::NoDepends => "NoDepends"@,
            ParseErrorView::Other(m) => tagged("Other"@, m),
        }
    }
}

impl ParseError {
    /// Classes a file system failure by its kind.
    pub fn from_failure(failure: Failure) -> (out: ParseError)
        ensures
            out@ == ParseErrorView::from_failure(failure@),
    {
        match failure.kind {
            FailureKind::NotFound => ParseError::NoDirectory(failure.message),
            _ => ParseError::Other(failure.message),
        }
    }

    /// Lifts a link error to the package's level.
    pub fn from_build(error: BuildError) -> (out: ParseError)
        ensures
            out@ == ParseErrorView::from_build(error),
    {
        ParseError::Other(error.to_string())
    }

    /// The error as one line of text: its `{:?}` form.
    pub fn to_string(&self) -> (out: String)
        ensures
            out@ == self@.text(),
    {
        match self {
            ParseError::NoVersion => String::from_str("NoVersion"),
            ParseError::NoDirectory(m) => tag("NoDirectory", m.as_str()),
            ParseError::AlreadyInstalled => String::from_str("AlreadyInstalled"),
            ParseError::NotInstalled => String::from_str("NotInstalled"),
            ParseError::NoInstallScript => String::from_str("NoInstallScript"),
            ParseError::FailedInstallScript => String::from_str("FailedInstallScript"),
            ParseError::NoDepends => String::from_str("NoDepends"),
            ParseError::Other(m) => tag("Other", m.as_str()),
        }
    }
}

impl UpdateErrorView {
    /// The `{:?}` form of the error.
    pub open spec fn text(self) -> Seq<char> {
        match self {
            UpdateErrorView::NoUpdateScript => "NoUpdateScript"@,
            UpdateErrorView::UpdateScriptError => "UpdateScriptError"@,
            UpdateErrorView::PackageUpdateError(m) => tagged("PackageUpdateError"@, m),
        }
    }
}

impl UpdateError {
    /// The error as one line of text: its `{:?}` form.
    pub fn to_string(&self) -> (out: String)
        ensures
            out@ == self@.text(),
    {
        match self {
            UpdateError::NoUpdateScript => String::from_str("NoUpdateScript"),
            UpdateError::UpdateScriptError => String::from_str("UpdateScriptError"),
            UpdateError::PackageUpdateError(m) => tag("PackageUpdateError", m.as_str()),
        }
    }
}

} // verus!
