//! URLs as the evaluation engine reads them: the schemes it recognizes, and
//! the parts of a parsed URL, which the `url` crate computes.
use vstd::prelude::*;

use crate::text::chars_of;

verus! {

/// `c` with ASCII uppercase letters made lowercase.
pub open spec fn ascii_lower(c: char) -> char {
    if 'A' <= c && c <= 'Z' {
        ((c as u32) + 32) as char
    } else {
        c
    }
}

/// Whether `s` starts with the lowercase ASCII text `prefix`, ignoring the
/// case of ASCII letters.
pub open spec fn has_prefix_ignore_case(s: Seq<char>, prefix: Seq<char>) -> bool {
    prefix.len() <= s.len() && forall|i: int| 0 <= i < prefix.len() ==> #[trigger] ascii_lower(s[i]) == prefix[i]
}

/// Whether `s` is a `file` URL.
pub open spec fn spec_is_file_url(s: Seq<char>) -> bool {
    has_prefix_ignore_case(s, "file://"@)
}

/// Whether `s` is a URL of a scheme that evaluation supports.
pub open spec fn spec_is_url(s: Seq<char>) -> bool {
    ||| has_prefix_ignore_case(s, "http://"@)
    ||| has_prefix_ignore_case(s, "https://"@)
    ||| has_prefix_ignore_case(s, "file://"@)
    ||| has_prefix_ignore_case(s, "az://"@)
    ||| has_prefix_ignore_case(s, "s3://"@)
    ||| has_prefix_ignore_case(s, "gs://"@)
}

/// `c` with ASCII uppercase letters made lowercase.
fn to_ascii_lower(c: char) -> (r: char)
    ensures
        r == ascii_lower(c),
{
    if 'A' <= c && c <= 'Z' {
        ((c as u8) + 32) as char
    } else {
        c
    }
}

/// Whether `s` starts with `prefix` (lowercase ASCII), ignoring the case of
/// ASCII letters.
fn starts_with_ignore_case(s: &[char], prefix: &str) -> (b: bool)
    ensures
        b == has_prefix_ignore_case(s@, prefix@),
{
    let p = chars_of(prefix);
    if p.len() > s.len() {
        return false;
    }
    let mut i: usize = 0;
    while i < p.len()
        invariant
            p@ == prefix@,
            p@.len() <= s@.len(),
            i <= p@.len(),
            forall|j: int| 0 <= j < i ==> #[trigger] ascii_lower(s@[j]) == p@[j],
        decreases p@.len() - i,
    {
        if to_ascii_lower(s[i]) != p[i] {
            return false;
        }
        i = i + 1;
    }
    true
}

/// Whether `s` is a `file` URL.
pub fn is_file_url(s: &str) -> (b: bool)
    ensures
        b == spec_is_file_url(s@),
{
    let c = chars_of(s);
    starts_with_ignore_case(c.as_slice(), "file://")
}

/// Whether `s` is a URL with one of the supported schemes: `http`, `https`,
/// `file`, `az`, `s3` or `gs`.
pub fn is_url(s: &str) -> (b: bool)
    ensures
        b == spec_is_url(s@),
{
    let c = chars_of(s);
    starts_with_ignore_case(c.as_slice(), "http://") || starts_with_ignore_case(
        c.as_slice(),
        "https://",
    ) || starts_with_ignore_case(c.as_slice(), "file://") || starts_with_ignore_case(
        c.as_slice(),
        "az://",
    ) || starts_with_ignore_case(c.as_slice(), "s3://") || starts_with_ignore_case(
        c.as_slice(),
        "gs://",
    )
}

/// The parts of a parsed URL that evaluation reads: its serialization, its
/// scheme, its authority, and its path segments (`None` for a URL that
/// cannot be a base).
pub type UrlView = (Seq<char>, Seq<char>, Seq<char>, Option<Seq<Seq<char>>>);

/// A parsed URL.
#[derive(Debug, Clone)]
pub struct ParsedUrl {
    /// The serialization of the URL.
    pub text: String,
    /// The scheme.
    pub scheme: String,
    /// The authority: user information, host and port.
    pub authority: String,
    /// The path segments, for a URL that can be a base.
    pub segments: Option<Vec<String>>,
}

/// The text of each string in `v`.
pub open spec fn texts(v: Seq<String>) -> Seq<Seq<char>> {
    v.map_values(|s: String| s@)
}

impl View for ParsedUrl {
    type V = UrlView;

    open spec fn view(&self) -> UrlView {
        (
            self.text@,
            self.scheme@,
            self.authority@,
            match self.segments {
                Some(v) => Some(texts(v@)),
                None => None,
            },
        )
    }
}

/// What `url::Url::parse` makes of `s`: `None` where it fails, otherwise
/// the parts of the URL.
pub uninterp spec fn url_parse(s: Seq<char>) -> Option<UrlView>;

/// What `url::Url::join` makes of the URL serialized as `base` and the
/// reference `input`.
pub uninterp spec fn url_join(base: Seq<char>, input: Seq<char>) -> Option<UrlView>;

/// Calls `url::Url::parse` on `s`; the result is named [`url_parse`].
#[verifier::external_body]
pub(crate) fn parse_url(s: &str) -> (r: Option<ParsedUrl>)
    ensures
        match r {
            Some(u) => url_parse(s@) == Some(u@),
            None => url_parse(s@) is None,
        },
{
    match url::Url::parse(s) {
        Ok(u) => Some(ParsedUrl {
            text: u.as_str().to_string(),
            scheme: u.scheme().to_string(),
            authority: u.authority().to_string(),
            segments: u.path_segments().map(|p| p.map(|x| x.to_string()).collect()),
        }),
        Err(_) => None,
    }
}

/// Calls `url::Url::join` on the URL serialized as `base` (which
/// `url::Url::parse` reads back as that URL) with `input`; the result is
/// named [`url_join`].
#[verifier::external_body]
pub(crate) fn join_url(base: &ParsedUrl, input: &str) -> (r: Option<ParsedUrl>)
    ensures
        match r {
            Some(u) => url_join(base.text@, input@) == Some(u@),
            None => url_join(base.text@, input@) is None,
        },
{
    match url::Url::parse(&base.text).and_then(|b| b.join(input)) {
        Ok(u) => Some(ParsedUrl {
            text: u.as_str().to_string(),
            scheme: u.scheme().to_string(),
            authority: u.authority().to_string(),
            segments: u.path_segments().map(|p| p.map(|x| x.to_string()).collect()),
        }),
        Err(_) => None,
    }
}

/// What `url::Url::to_file_path` makes of the URL `u`, as text: the local
/// path that a `file` URL names, or `None` where it names none or the path
/// is not UTF-8. The path follows the conventions of the platform the crate
/// is built for.
pub uninterp spec fn url_file_path(u: UrlView) -> Option<Seq<char>>;

/// Calls `url::Url::to_file_path` on the URL serialized as `url` (which
/// `url::Url::parse` reads back as that URL); the result is named
/// [`url_file_path`].
#[verifier::external_body]
pub(crate) fn file_url_path(url: &ParsedUrl) -> (r: Option<String>)
    ensures
        match r {
            Some(p) => url_file_path(url@) == Some(p@),
            None => url_file_path(url@) is None,
        },
{
    url::Url::parse(&url.text).ok()?.to_file_path().ok()?.into_os_string().into_string().ok()
}

} // verus!
