//! Absolute, fragment-free addresses and the resolution of raw hrefs against them.

use vstd::prelude::*;

verus! {

/// The serialization of the URL that `url::Url::parse` builds from `text`,
/// or `None` where that parser rejects `text`.
pub uninterp spec fn parsed(text: Seq<char>) -> Option<Seq<char>>;

/// The serialization of the URL that `url::Url::join` builds from `href`
/// relative to the URL that `base` parses to, or `None` where either the
/// base or the reference is rejected.
pub uninterp spec fn joined(base: Seq<char>, href: Seq<char>) -> Option<Seq<char>>;

/// The serialization of the URL that `url` parses to after
/// `url::Url::set_fragment(None)`, or `None` where `url` does not parse.
pub uninterp spec fn defragmented(url: Seq<char>) -> Option<Seq<char>>;

/// The scheme, as `url::Url::scheme` gives it, of the URL that `url` parses
/// to, or `None` where `url` does not parse.
pub uninterp spec fn scheme_of(url: Seq<char>) -> Option<Seq<char>>;

/// The characters of an optional string.
pub open spec fn text_of(o: Option<String>) -> Option<Seq<char>> {
    match o {
        Some(s) => Some(s@),
        None => None,
    }
}

/// Calls `url::Url::parse`. Trusted: the serialization handed back is the
/// one named `parsed`, a function of the input text alone.
#[verifier::external_body]
fn parse_text(text: &str) -> (r: Option<String>)
    ensures
        text_of(r) == parsed(text@),
{
    ::url::Url::parse(text).ok().map(String::from)
}

/// Calls `url::Url::join` on the URL that `base` parses to. Trusted: the
/// serialization handed back is the one named `joined`.
#[verifier::external_body]
fn join_text(base: &str, href: &str) -> (r: Option<String>)
    ensures
        text_of(r) == joined(base@, href@),
{
    match ::url::Url::parse(base) {
        Ok(b) => b.join(href).ok().map(String::from),
        Err(_) => None,
    }
}

/// Calls `url::Url::set_fragment` with `None` on the URL that `url` parses
/// to. Trusted: the serialization handed back is the one named
/// `defragmented`.
#[verifier::external_body]
fn defragment_text(url: &str) -> (r: Option<String>)
    ensures
        text_of(r) == defragmented(url@),
{
    match ::url::Url::parse(url) {
        Ok(mut u) => {
            u.set_fragment(None);
            Some(String::from(u))
        },
        Err(_) => None,
    }
}

/// Calls `url::Url::scheme` on the URL that `url` parses to. Trusted: the
/// scheme handed back is the one named `scheme_of`.
#[verifier::external_body]
fn scheme_text(url: &str) -> (r: Option<String>)
    ensures
        text_of(r) == scheme_of(url@),
{
    match ::url::Url::parse(url) {
        Ok(u) => Some(String::from(u.scheme())),
        Err(_) => None,
    }
}

/// Calls `url::Url::to_file_path` on the URL that `url` parses to. Nothing
/// is claimed of the path: what comes back depends on the platform.
#[verifier::external_body]
pub(crate) fn file_path_text(url: &str) -> (r: Option<String>) {
    match ::url::Url::parse(url) {
        Ok(u) => match u.to_file_path() {
            Ok(p) => p.into_os_string().into_string().ok(),
            Err(_) => None,
        },
        Err(_) => None,
    }
}

/// Why a raw href could not be turned into an address.
#[derive(Debug, Clone, Copy, PartialEq, Eq, Structural)]
pub enum NormalizationError {
    /// The href cannot be parsed relative to the base.
    Unparsable,
}

/// An absolute address in canonical form, without a fragment. Two addresses
/// are the same page exactly when their views are equal.
#[derive(Debug, PartialEq, Eq)]
pub struct Url {
    text: String,
}

impl View for Url {
    type V = Seq<char>;

    closed spec fn view(&self) -> Seq<char> {
        self.text@
    }
}

impl Clone for Url {
    fn clone(&self) -> (r: Self)
        ensures
            r == *self,
    {
        Url { text: self.text.clone() }
    }
}

/// What parsing `text` as an absolute address and dropping its fragment gives.
pub open spec fn absolute(text: Seq<char>) -> Option<Seq<char>> {
    match parsed(text) {
        Some(p) => defragmented(p),
        None => None,
    }
}

/// What resolving `href` against `base` and dropping the fragment gives.
pub open spec fn normalized(href: Seq<char>, base: Seq<char>) -> Option<Seq<char>> {
    match joined(base, href) {
        Some(j) => defragmented(j),
        None => None,
    }
}

impl Url {
    /// Parses an absolute address; any fragment is dropped.
    pub fn parse(text: &str) -> (r: Option<Url>)
        ensures
            match r {
                Some(u) => absolute(text@) == Some(u@),
                None => absolute(text@).is_none(),
            },
    {
        match parse_text(text) {
            Some(p) => match defragment_text(p.as_str()) {
                Some(t) => Some(Url { text: t }),
                None => None,
            },
            None => None,
        }
    }

    /// The canonical serialization.
    pub fn as_str(&self) -> (r: &str)
        ensures
            r@ == self@,
    {
        self.text.as_str()
    }

    /// Whether the address has the scheme `file`, the one that a local
    /// fetcher can retrieve.
    pub fn is_file(&self) -> (r: bool)
        ensures
            r == (scheme_of(self@) == Some("file"@)),
    {
        match scheme_text(self.text.as_str()) {
            Some(s) => {
                let file = String::from_str("file");
                s == file
            },
            None => false,
        }
    }

    /// Whether both addresses name the same page.
    pub fn same(&self, other: &Url) -> (r: bool)
        ensures
            r == (self@ == other@),
    {
        self.text == other.text
    }
}

/// Resolves `url` against `base` by the standard rules for relative
/// references and strips the fragment from the result. Fails exactly when the
/// reference cannot be resolved.
pub fn normalize_url(url: &str, base: &Url) -> (r: Result<Url, NormalizationError>)
    ensures
        match r {
            Ok(u) => normalized(url@, base@) == Some(u@),
            Err(e) => normalized(url@, base@).is_none() && e == NormalizationError::Unparsable,
        },
{
    match join_text(base.as_str(), url) {
        Some(j) => match defragment_text(j.as_str()) {
            Some(t) => Ok(Url { text: t }),
            None => Err(NormalizationError::Unparsable),
        },
        None => Err(NormalizationError::Unparsable),
    }
}

} // verus!
