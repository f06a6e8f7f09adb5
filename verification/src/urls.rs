//! What the library reads from a URL, through the `url` crate's parser.

use vstd::prelude::*;

verus! {

/// The parts of a parsed URL that the library uses.
pub struct ParsedUrl {
    pub scheme: String,
    pub host: Option<String>,
    pub last_segment: Option<String>,
}

/// The parts of a parsed URL as plain text.
pub struct UrlParts {
    pub scheme: Seq<char>,
    pub host: Option<Seq<char>>,
    pub last_segment: Option<Seq<char>>,
}

/// Optional text as its characters.
pub open spec fn opt_chars(o: Option<String>) -> Option<Seq<char>> {
    match o {
        Some(s) => Some(s@),
        None => None,
    }
}

impl View for ParsedUrl {
    type V = UrlParts;

    open spec fn view(&self) -> UrlParts {
        UrlParts {
            scheme: self.scheme@,
            host: opt_chars(self.host),
            last_segment: opt_chars(self.last_segment),
        }
    }
}

/// A URL parse outcome as plain values.
pub open spec fn parsed_view(r: Result<ParsedUrl, String>) -> Result<UrlParts, Seq<char>> {
    match r {
        Ok(p) => Ok(p@),
        Err(e) => Err(e@),
    }
}

/// Name for what `url::Url::parse` makes of a text: the scheme, `host_str()` and
/// the last of `path_segments()` on success, the parse error's message otherwise.
pub uninterp spec fn url_parse(raw: Seq<char>) -> Result<UrlParts, Seq<char>>;

/// `url::Url::parse`, read out as `scheme()`, `host_str()` and the last item of
/// `path_segments()`; an error is turned into its `Display` text. The outcome is
/// named by `url_parse`.
#[verifier::external_body]
pub(crate) fn parse_url(raw: &str) -> (r: Result<ParsedUrl, String>)
    ensures
        match r {
            Ok(p) => url_parse(raw@) == Ok::<UrlParts, Seq<char>>(p@),
            Err(e) => url_parse(raw@) == Err::<UrlParts, Seq<char>>(e@),
        },
{
    match url::Url::parse(raw) {
        Ok(u) => Ok(ParsedUrl {
            scheme: u.scheme().to_string(),
            host: u.host_str().map(|h| h.to_string()),
            last_segment: u.path_segments().and_then(|s| s.last()).map(|s| s.to_string()),
        }),
        Err(e) => Err(e.to_string()),
    }
}

} // verus!
