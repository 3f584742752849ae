//! The template of a new document.
//!
//! A new project gets a document that holds the required header, a comment
//! and the required footer. Before a template file is written, the place
//! where it goes is checked.

use crate::parse_file::{FOOTER, HEADER};
use vstd::prelude::*;

verus! {

/// Why a template file is not written.
#[derive(Clone, Copy, Debug, PartialEq, Eq, Structural)]
pub enum TemplateError {
    /// The path is one that the session leaves alone.
    Excluded,
    /// The file exists and may not be overwritten.
    Exists,
    /// A directory of that name exists.
    IsDirectory,
}

/// What stands between header and footer in a new document.
pub open spec fn placeholder() -> Seq<char> {
    "\n% Add your content here\n\n"@
}

/// The text of a new document.
pub open spec fn template(header: Seq<char>, footer: Seq<char>) -> Seq<char> {
    header + placeholder() + footer
}

/// The text of a new document: header, a comment, footer.
pub fn template_document() -> (r: String)
    ensures
        r@ == template(HEADER@, FOOTER@),
{
    let mut s = String::from_str(HEADER);
    s.append("\n% Add your content here\n\n");
    s.append(FOOTER);
    s
}

/// Whether a template file may be written to a path, given what is there.
/// The path must not be ignored; a file that exists is overwritten only when
/// forced; a directory is never replaced.
pub open spec fn target_check(ignored: bool, is_file: bool, is_dir: bool, force: bool) -> Result<
    bool,
    TemplateError,
> {
    if ignored {
        Err(TemplateError::Excluded)
    } else if is_file && !force {
        Err(TemplateError::Exists)
    } else if is_dir {
        Err(TemplateError::IsDirectory)
    } else {
        Ok(is_file)
    }
}

/// Whether a template file may be written to a path; `Ok(true)` says that a
/// file is overwritten.
pub fn check_target(ignored: bool, is_file: bool, is_dir: bool, force: bool) -> (r: Result<
    bool,
    TemplateError,
>)
    ensures
        r == target_check(ignored, is_file, is_dir, force),
{
    if ignored {
        Err(TemplateError::Excluded)
    } else if is_file && !force {
        Err(TemplateError::Exists)
    } else if is_dir {
        Err(TemplateError::IsDirectory)
    } else {
        Ok(is_file)
    }
}

} // verus!
