//! What a content fetcher can report.

use vstd::prelude::*;
use crate::normalize::{file_path_text, scheme_of, Url};

verus! {

/// Why a page could not be retrieved.
#[derive(Debug, PartialEq, Eq)]
pub enum FetchError {
    /// The address has a shape or scheme that the fetcher cannot retrieve.
    MalformedUrl,
    /// The target does not exist.
    NotFound,
    /// Any other retrieval failure, with its detail.
    IoError(String),
}

/// The path to read for an address: the local path of an address with the
/// scheme `file`, and `MalformedUrl` for any other address or where there is
/// no such path.
pub open spec fn path_or_malformed(is_file: bool, path: Option<String>) -> Result<String, FetchError> {
    match path {
        Some(p) if is_file => Ok(p),
        _ => Err(FetchError::MalformedUrl),
    }
}

/// Decides between the local path of an address and `MalformedUrl`.
pub fn path_for(is_file: bool, path: Option<String>) -> (r: Result<String, FetchError>)
    ensures
        r == path_or_malformed(is_file, path),
{
    match path {
        Some(p) => if is_file {
            Ok(p)
        } else {
            Err(FetchError::MalformedUrl)
        },
        None => Err(FetchError::MalformedUrl),
    }
}

/// The local path from which the page at `url` is read. Only addresses with
/// the scheme `file` have one; every failure is `MalformedUrl`.
pub fn url_to_path(url: &Url) -> (r: Result<String, FetchError>)
    ensures
        scheme_of(url@) != Some("file"@) ==> r is Err,
        r is Err ==> r->Err_0 == FetchError::MalformedUrl,
{
    let is_file = url.is_file();
    if is_file {
        path_for(is_file, file_path_text(url.as_str()))
    } else {
        Err(FetchError::MalformedUrl)
    }
}

/// The fetch error for a failed read: `NotFound` where the target does not
/// exist, `IoError` with the detail otherwise.
pub fn read_failure(not_found: bool, detail: String) -> (r: FetchError)
    ensures
        r == if not_found {
            FetchError::NotFound
        } else {
            FetchError::IoError(detail)
        },
{
    if not_found {
        FetchError::NotFound
    } else {
        FetchError::IoError(detail)
    }
}

} // verus!
