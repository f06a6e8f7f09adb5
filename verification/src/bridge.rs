//! The local HTTP bridge that browser extensions submit downloads through:
//! reading requests, routing them, refusing unsafe targets, and writing replies.

use vstd::prelude::*;
use crate::text::{
    str_to_chars, chars_to_string, slice_range, trim_chars, trim_ws, lowercase, uppercase,
    to_lowercase, to_uppercase, from_utf8_lossy, utf8_lossy, find_first, find_from, find_chars, starts_with,
    has_prefix, lines_of, lines_chars, lemma_find_from_bounds, occurs_at, decimal, digit_char,
    skip_utf8, skip_utf8_bytes, str_equal, decimal_chars_wide,
    extend_chars, utf8_len, char_utf8_width, lemma_utf8_len_add,
};
use crate::urls::{opt_chars, parse_url, url_parse, parsed_view, UrlParts, ParsedUrl};

verus! {

/// `x-auth-token:`, the header carrying the bridge token (lowercase).
pub open spec fn auth_key() -> Seq<char> {
    seq!['x', '-', 'a', 'u', 't', 'h', '-', 't', 'o', 'k', 'e', 'n', ':']
}

fn auth_key_chars() -> (v: Vec<char>)
    ensures
        v@ == auth_key(),
{
    vec!['x', '-', 'a', 'u', 't', 'h', '-', 't', 'o', 'k', 'e', 'n', ':']
}

/// `OPTIONS`, the method of a CORS preflight.
pub open spec fn options_word() -> Seq<char> {
    seq!['O', 'P', 'T', 'I', 'O', 'N', 'S']
}

fn options_word_chars() -> (v: Vec<char>)
    ensures
        v@ == options_word(),
{
    vec!['O', 'P', 'T', 'I', 'O', 'N', 'S']
}

/// `/status`, the liveness path.
pub open spec fn status_path() -> Seq<char> {
    seq!['/', 's', 't', 'a', 't', 'u', 's']
}

fn status_path_chars() -> (v: Vec<char>)
    ensures
        v@ == status_path(),
{
    vec!['/', 's', 't', 'a', 't', 'u', 's']
}

/// `/download`, the path that submits a download.
pub open spec fn download_path() -> Seq<char> {
    seq!['/', 'd', 'o', 'w', 'n', 'l', 'o', 'a', 'd']
}

fn download_path_chars() -> (v: Vec<char>)
    ensures
        v@ == download_path(),
{
    vec!['/', 'd', 'o', 'w', 'n', 'l', 'o', 'a', 'd']
}

/// The blank line that ends HTTP headers.
pub open spec fn blank_line() -> Seq<char> {
    seq!['\r', '\n', '\r', '\n']
}

fn blank_line_chars() -> (v: Vec<char>)
    ensures
        v@ == blank_line(),
{
    vec!['\r', '\n', '\r', '\n']
}

/// Origins of Chrome extensions start with this.
pub open spec fn chrome_origin() -> Seq<char> {
    seq!['c', 'h', 'r', 'o', 'm', 'e', '-', 'e', 'x', 't', 'e', 'n', 's', 'i', 'o', 'n', ':', '/', '/']
}

fn chrome_origin_chars() -> (v: Vec<char>)
    ensures
        v@ == chrome_origin(),
{
    vec!['c', 'h', 'r', 'o', 'm', 'e', '-', 'e', 'x', 't', 'e', 'n', 's', 'i', 'o', 'n', ':', '/', '/']
}

/// Origins of Firefox extensions start with this.
pub open spec fn firefox_origin() -> Seq<char> {
    seq!['m', 'o', 'z', '-', 'e', 'x', 't', 'e', 'n', 's', 'i', 'o', 'n', ':', '/', '/']
}

fn firefox_origin_chars() -> (v: Vec<char>)
    ensures
        v@ == firefox_origin(),
{
    vec!['m', 'o', 'z', '-', 'e', 'x', 't', 'e', 'n', 's', 'i', 'o', 'n', ':', '/', '/']
}

/// The cloud metadata host, never a download target.
pub open spec fn metadata_host() -> Seq<char> {
    seq!['m', 'e', 't', 'a', 'd', 'a', 't', 'a', '.', 'g', 'o', 'o', 'g', 'l', 'e', '.', 'i', 'n', 't', 'e', 'r', 'n', 'a', 'l']
}

fn metadata_host_chars() -> (v: Vec<char>)
    ensures
        v@ == metadata_host(),
{
    vec!['m', 'e', 't', 'a', 'd', 'a', 't', 'a', '.', 'g', 'o', 'o', 'g', 'l', 'e', '.', 'i', 'n', 't', 'e', 'r', 'n', 'a', 'l']
}

/// Refusal of the metadata host.
pub open spec fn metadata_blocked() -> Seq<char> {
    seq!['m', 'e', 't', 'a', 'd', 'a', 't', 'a', ' ', 'h', 'o', 's', 't', ' ', 'b', 'l', 'o', 'c', 'k', 'e', 'd']
}

fn metadata_blocked_chars() -> (v: Vec<char>)
    ensures
        v@ == metadata_blocked(),
{
    vec!['m', 'e', 't', 'a', 'd', 'a', 't', 'a', ' ', 'h', 'o', 's', 't', ' ', 'b', 'l', 'o', 'c', 'k', 'e', 'd']
}

/// Refusal of a URL without a host.
pub open spec fn missing_host() -> Seq<char> {
    seq!['m', 'i', 's', 's', 'i', 'n', 'g', ' ', 'h', 'o', 's', 't']
}

fn missing_host_chars() -> (v: Vec<char>)
    ensures
        v@ == missing_host(),
{
    vec!['m', 'i', 's', 's', 'i', 'n', 'g', ' ', 'h', 'o', 's', 't']
}

/// Opens the refusal of a URL that does not parse.
pub open spec fn invalid_url_prefix() -> Seq<char> {
    seq!['i', 'n', 'v', 'a', 'l', 'i', 'd', ' ', 'u', 'r', 'l', ':', ' ']
}

fn invalid_url_prefix_chars() -> (v: Vec<char>)
    ensures
        v@ == invalid_url_prefix(),
{
    vec!['i', 'n', 'v', 'a', 'l', 'i', 'd', ' ', 'u', 'r', 'l', ':', ' ']
}

/// Opens the refusal of a scheme.
pub open spec fn scheme_prefix() -> Seq<char> {
    seq!['s', 'c', 'h', 'e', 'm', 'e', ' ', '\'']
}

fn scheme_prefix_chars() -> (v: Vec<char>)
    ensures
        v@ == scheme_prefix(),
{
    vec!['s', 'c', 'h', 'e', 'm', 'e', ' ', '\'']
}

/// Closes the refusal of a scheme.
pub open spec fn scheme_suffix() -> Seq<char> {
    seq!['\'', ' ', 'n', 'o', 't', ' ', 'a', 'l', 'l', 'o', 'w', 'e', 'd']
}

fn scheme_suffix_chars() -> (v: Vec<char>)
    ensures
        v@ == scheme_suffix(),
{
    vec!['\'', ' ', 'n', 'o', 't', ' ', 'a', 'l', 'l', 'o', 'w', 'e', 'd']
}

/// The `http` scheme.
pub open spec fn http_scheme() -> Seq<char> {
    seq!['h', 't', 't', 'p']
}

fn http_scheme_chars() -> (v: Vec<char>)
    ensures
        v@ == http_scheme(),
{
    vec!['h', 't', 't', 'p']
}

/// The `https` scheme.
pub open spec fn https_scheme() -> Seq<char> {
    seq!['h', 't', 't', 'p', 's']
}

fn https_scheme_chars() -> (v: Vec<char>)
    ensures
        v@ == https_scheme(),
{
    vec!['h', 't', 't', 'p', 's']
}

/// `content-length:` (lowercase).
pub open spec fn content_length_key() -> Seq<char> {
    seq!['c', 'o', 'n', 't', 'e', 'n', 't', '-', 'l', 'e', 'n', 'g', 't', 'h', ':']
}

fn content_length_key_chars() -> (v: Vec<char>)
    ensures
        v@ == content_length_key(),
{
    vec!['c', 'o', 'n', 't', 'e', 'n', 't', '-', 'l', 'e', 'n', 'g', 't', 'h', ':']
}

/// Opens a response.
pub open spec fn resp_start() -> Seq<char> {
    seq!['H', 'T', 'T', 'P', '/', '1', '.', '1', ' ']
}

fn resp_start_chars() -> (v: Vec<char>)
    ensures
        v@ == resp_start(),
{
    vec!['H', 'T', 'T', 'P', '/', '1', '.', '1', ' ']
}

/// Response headers before the length.
pub open spec fn resp_headers() -> Seq<char> {
    seq!['\r', '\n', 'C', 'o', 'n', 't', 'e', 'n', 't', '-', 'T', 'y', 'p', 'e', ':', ' ', 'a', 'p', 'p', 'l', 'i', 'c', 'a', 't', 'i', 'o', 'n', '/', 'j', 's', 'o', 'n', ';', ' ', 'c', 'h', 'a', 'r', 's', 'e', 't', '=', 'u', 't', 'f', '-', '8', '\r', '\n', 'C', 'o', 'n', 't', 'e', 'n', 't', '-', 'L', 'e', 'n', 'g', 't', 'h', ':', ' ']
}

fn resp_headers_chars() -> (v: Vec<char>)
    ensures
        v@ == resp_headers(),
{
    vec!['\r', '\n', 'C', 'o', 'n', 't', 'e', 'n', 't', '-', 'T', 'y', 'p', 'e', ':', ' ', 'a', 'p', 'p', 'l', 'i', 'c', 'a', 't', 'i', 'o', 'n', '/', 'j', 's', 'o', 'n', ';', ' ', 'c', 'h', 'a', 'r', 's', 'e', 't', '=', 'u', 't', 'f', '-', '8', '\r', '\n', 'C', 'o', 'n', 't', 'e', 'n', 't', '-', 'L', 'e', 'n', 'g', 't', 'h', ':', ' ']
}

/// Response headers after the length.
pub open spec fn resp_close() -> Seq<char> {
    seq!['\r', '\n', 'C', 'o', 'n', 'n', 'e', 'c', 't', 'i', 'o', 'n', ':', ' ', 'c', 'l', 'o', 's', 'e', '\r', '\n']
}

fn resp_close_chars() -> (v: Vec<char>)
    ensures
        v@ == resp_close(),
{
    vec!['\r', '\n', 'C', 'o', 'n', 'n', 'e', 'c', 't', 'i', 'o', 'n', ':', ' ', 'c', 'l', 'o', 's', 'e', '\r', '\n']
}

/// Opens the CORS headers.
pub open spec fn cors_start() -> Seq<char> {
    seq!['A', 'c', 'c', 'e', 's', 's', '-', 'C', 'o', 'n', 't', 'r', 'o', 'l', '-', 'A', 'l', 'l', 'o', 'w', '-', 'O', 'r', 'i', 'g', 'i', 'n', ':', ' ']
}

fn cors_start_chars() -> (v: Vec<char>)
    ensures
        v@ == cors_start(),
{
    vec!['A', 'c', 'c', 'e', 's', 's', '-', 'C', 'o', 'n', 't', 'r', 'o', 'l', '-', 'A', 'l', 'l', 'o', 'w', '-', 'O', 'r', 'i', 'g', 'i', 'n', ':', ' ']
}

/// The rest of the CORS headers.
pub open spec fn cors_rest() -> Seq<char> {
    seq!['\r', '\n', 'A', 'c', 'c', 'e', 's', 's', '-', 'C', 'o', 'n', 't', 'r', 'o', 'l', '-', 'A', 'l', 'l', 'o', 'w', '-', 'M', 'e', 't', 'h', 'o', 'd', 's', ':', ' ', 'G', 'E', 'T', ',', ' ', 'P', 'O', 'S', 'T', ',', ' ', 'O', 'P', 'T', 'I', 'O', 'N', 'S', '\r', '\n', 'A', 'c', 'c', 'e', 's', 's', '-', 'C', 'o', 'n', 't', 'r', 'o', 'l', '-', 'A', 'l', 'l', 'o', 'w', '-', 'H', 'e', 'a', 'd', 'e', 'r', 's', ':', ' ', '*', '\r', '\n']
}

fn cors_rest_chars() -> (v: Vec<char>)
    ensures
        v@ == cors_rest(),
{
    vec!['\r', '\n', 'A', 'c', 'c', 'e', 's', 's', '-', 'C', 'o', 'n', 't', 'r', 'o', 'l', '-', 'A', 'l', 'l', 'o', 'w', '-', 'M', 'e', 't', 'h', 'o', 'd', 's', ':', ' ', 'G', 'E', 'T', ',', ' ', 'P', 'O', 'S', 'T', ',', ' ', 'O', 'P', 'T', 'I', 'O', 'N', 'S', '\r', '\n', 'A', 'c', 'c', 'e', 's', 's', '-', 'C', 'o', 'n', 't', 'r', 'o', 'l', '-', 'A', 'l', 'l', 'o', 'w', '-', 'H', 'e', 'a', 'd', 'e', 'r', 's', ':', ' ', '*', '\r', '\n']
}

/// A line end.
pub open spec fn crlf() -> Seq<char> {
    seq!['\r', '\n']
}

fn crlf_chars() -> (v: Vec<char>)
    ensures
        v@ == crlf(),
{
    vec!['\r', '\n']
}


/// The value of a header line: the text after its first `:`, trimmed.
pub open spec fn header_value_of(l: Seq<char>) -> Option<Seq<char>> {
    match find_first(l, seq![':']) {
        Some(k) => Some(trim_ws(l.skip(k + 1))),
        None => None,
    }
}

/// The value from the first of `ls` whose lowercase starts with `prefix`.
pub open spec fn header_in_lines(ls: Seq<Seq<char>>, prefix: Seq<char>) -> Option<Seq<char>>
    decreases ls.len(),
{
    if ls.len() == 0 {
        None
    } else if starts_with(lowercase(ls[0]), prefix) {
        header_value_of(ls[0])
    } else {
        header_in_lines(ls.drop_first(), prefix)
    }
}

/// What `req_header` returns: from the first line of the request whose lowercase
/// starts with the lowercase name and a colon, the text after its first colon,
/// trimmed.
pub open spec fn request_header(req: Seq<char>, name: Seq<char>) -> Option<Seq<char>> {
    header_in_lines(lines_of(req), lowercase(name).push(':'))
}

/// The value of a header line as characters.
fn line_value(l: &[char]) -> (r: Option<Vec<char>>)
    ensures
        match r {
            Some(v) => header_value_of(l@) == Some(v@),
            None => header_value_of(l@) is None,
        },
{
    let colon: Vec<char> = vec![':'];
    assert(colon@ =~= seq![':']);
    match find_chars(l, colon.as_slice(), 0) {
        Some(k) => {
            proof { lemma_find_from_bounds(l@, colon@, 0); }
            let rest = slice_range(l, k + 1, l.len());
            assert(rest@ =~= l@.skip(k + 1));
            Some(trim_chars(rest.as_slice(), None))
        },
        None => None,
    }
}

/// The value of a header line: the text after its first `:`, trimmed.
pub fn header_value(line: &str) -> (r: Option<String>)
    ensures
        opt_chars(r) == header_value_of(line@),
{
    match line_value(str_to_chars(line).as_slice()) {
        Some(v) => Some(chars_to_string(v.as_slice())),
        None => None,
    }
}

/// The lowercase of a character sequence, through `str::to_lowercase`.
fn lower_chars(l: &[char]) -> (r: Vec<char>)
    ensures
        r@ == lowercase(l@),
        r@.contains(':') ==> l@.contains(':'),
{
    let s = chars_to_string(l);
    str_to_chars(to_lowercase(s.as_str()).as_str())
}

/// Whether a line's lowercase starts with `prefix`.
pub open spec fn line_matches(l: Seq<char>, prefix: Seq<char>) -> bool {
    starts_with(lowercase(l), prefix)
}

/// A colon anywhere in `s` is found by `find_first`.
proof fn lemma_colon_found(s: Seq<char>)
    requires
        s.contains(':'),
    ensures
        find_first(s, seq![':']) is Some,
{
    let i = choose|i: int| 0 <= i < s.len() && s[i] == ':';
    assert(s.subrange(i, i + 1) =~= seq![':']);
    lemma_find_some(s, seq![':'], i, 0);
}

pub(crate) proof fn lemma_find_some(s: Seq<char>, pat: Seq<char>, i: int, from: int)
    requires
        0 <= from <= i,
        occurs_at(s, pat, i),
    ensures
        find_from(s, pat, from) is Some,
    decreases i - from,
{
    if !occurs_at(s, pat, from) {
        lemma_find_some(s, pat, i, from + 1);
    }
}

/// The value of the header `name` in the raw request text `req` (name matched
/// case-insensitively): the text after the first colon of the first line that
/// starts with `name:`, trimmed. There is none exactly when no line starts with
/// `name:` (a line that does holds a colon, so it always has a value).
pub fn req_header(req: &str, name: &str) -> (r: Option<String>)
    ensures
        opt_chars(r) == request_header(req@, name@),
        r is None <==> forall|j: int| 0 <= j < lines_of(req@).len()
            ==> !line_matches(#[trigger] lines_of(req@)[j], lowercase(name@).push(':')),
{
    let mut prefix = str_to_chars(to_lowercase(name).as_str());
    prefix.push(':');
    let rc = str_to_chars(req);
    let ls = lines_chars(rc.as_slice());
    let ghost all = lines_of(req@);
    let mut i: usize = 0;
    proof { assert(all.skip(0) =~= all); }
    while i < ls.len()
        invariant
            i <= ls.len(),
            all == lines_of(req@),
            ls@.len() == all.len(),
            forall|j: int| 0 <= j < ls@.len() ==> #[trigger] ls@[j]@ == all[j],
            prefix@ == lowercase(name@).push(':'),
            header_in_lines(all, prefix@) == header_in_lines(all.skip(i as int), prefix@),
            forall|j: int| 0 <= j < i ==> !line_matches(#[trigger] all[j], prefix@),
        decreases ls.len() - i,
    {
        proof {
            assert(all.skip(i as int)[0] == all[i as int]);
            assert(all.skip(i as int).drop_first() =~= all.skip(i + 1));
            assert(ls@[i as int]@ == all[i as int]);
        }
        let low = lower_chars(ls[i].as_slice());
        if has_prefix(low.as_slice(), prefix.as_slice()) {
            proof {
                let k = prefix@.len() - 1;
                assert(low@.take(prefix@.len() as int)[k] == ':');
                assert(low@[k] == ':');
                assert(low@.contains(':'));
                lemma_colon_found(all[i as int]);
                assert(line_matches(all[i as int], prefix@));
            }
            let line = chars_to_string(ls[i].as_slice());
            return header_value(line.as_str());
        }
        i += 1;
    }
    None
}

/// The first line of `ls` whose lowercase starts with `prefix`.
pub open spec fn first_line_with(ls: Seq<Seq<char>>, prefix: Seq<char>) -> Option<Seq<char>>
    decreases ls.len(),
{
    if ls.len() == 0 {
        None
    } else if starts_with(lowercase(ls[0]), prefix) {
        Some(ls[0])
    } else {
        first_line_with(ls.drop_first(), prefix)
    }
}

/// The token on a header line whose name was recognised as `x-auth-token`: the
/// text after its first 13 bytes, trimmed. (Only U+212A lowercases into that
/// ASCII text, and it takes bytes 9 to 11, so byte 13 is always a character
/// boundary of such a line; were it not, no token is read.)
pub open spec fn token_of_line(l: Seq<char>) -> Option<Seq<char>> {
    match skip_utf8(l, 13) {
        Some(rest) => Some(trim_ws(rest)),
        None => None,
    }
}

/// The token a request presents, from its first line whose lowercase starts with
/// `x-auth-token:`.
pub open spec fn presented_token(req: Seq<char>) -> Option<Seq<char>> {
    match first_line_with(lines_of(req), auth_key()) {
        Some(l) => token_of_line(l),
        None => None,
    }
}

/// A request is let through when no token is configured, or when it presents
/// exactly the configured token.
pub open spec fn is_authorized(req: Seq<char>, token: Option<Seq<char>>) -> bool {
    match token {
        None => true,
        Some(t) => presented_token(req) == Some(t),
    }
}

fn find_line_with(ls: &Vec<Vec<char>>, prefix: &Vec<char>, Ghost(all): Ghost<Seq<Seq<char>>>)
    -> (r: Option<usize>)
    requires
        ls@.len() == all.len(),
        forall|j: int| 0 <= j < ls@.len() ==> #[trigger] ls@[j]@ == all[j],
    ensures
        match r {
            Some(i) => i < all.len() && first_line_with(all, prefix@) == Some(all[i as int]),
            None => first_line_with(all, prefix@) is None,
        },
{
    let mut i: usize = 0;
    proof { assert(all.skip(0) =~= all); }
    while i < ls.len()
        invariant
            i <= ls.len(),
            ls@.len() == all.len(),
            forall|j: int| 0 <= j < ls@.len() ==> #[trigger] ls@[j]@ == all[j],
            first_line_with(all, prefix@) == first_line_with(all.skip(i as int), prefix@),
        decreases ls.len() - i,
    {
        proof {
            assert(all.skip(i as int)[0] == all[i as int]);
            assert(all.skip(i as int).drop_first() =~= all.skip(i + 1));
            assert(ls@[i as int]@ == all[i as int]);
        }
        let low = lower_chars(ls[i].as_slice());
        if has_prefix(low.as_slice(), prefix.as_slice()) {
            return Some(i);
        }
        i += 1;
    }
    None
}

/// The token on a line already recognised as an `X-Auth-Token` header: the text
/// after its first 13 bytes (the name and the colon), trimmed.
pub fn token_line_value(line: &str) -> (r: Option<String>)
    ensures
        opt_chars(r) == token_of_line(line@),
{
    let l = str_to_chars(line);
    match skip_utf8_bytes(l.as_slice(), 13) {
        Some(rest) => Some(chars_to_string(trim_chars(rest.as_slice(), None).as_slice())),
        None => None,
    }
}

/// Whether the request may use the bridge: with a configured `token`, only when
/// it presents that token in an `X-Auth-Token` header.
pub fn check_authorized(req: &str, token: Option<&str>) -> (ok: bool)
    ensures
        ok == is_authorized(req@, match token { Some(t) => Some(t@), None => None }),
{
    match token {
        None => true,
        Some(expected) => {
            let rc = str_to_chars(req);
            let ls = lines_chars(rc.as_slice());
            let key = auth_key_chars();
            match find_line_with(&ls, &key, Ghost(lines_of(req@))) {
                None => false,
                Some(i) => {
                    let line = chars_to_string(ls[i].as_slice());
                    match token_line_value(line.as_str()) {
                        None => false,
                        Some(v) => str_equal(v.as_str(), expected),
                    }
                },
            }
        },
    }
}

/// Name for what `serde_json` finds under `"url"` in a JSON text: the string
/// value of that member when the text is a JSON object that has one.
pub uninterp spec fn json_url_member(body: Seq<char>) -> Option<Seq<char>>;

/// `serde_json::from_str::<serde_json::Value>`, then `.get("url")` and
/// `.as_str()`; the outcome is named by `json_url_member`.
#[verifier::external_body]
fn json_url_field(body: &str) -> (r: Option<String>)
    ensures
        opt_chars(r) == json_url_member(body@),
{
    match serde_json::from_str::<serde_json::Value>(body) {
        Ok(j) => j.get("url").and_then(|v| v.as_str()).map(|s| s.to_string()),
        Err(_) => None,
    }
}

/// How the bridge answers a request.
pub enum BridgeRoute {
    /// 401: a token is configured and the request does not present it.
    Unauthorized,
    /// 204: a CORS preflight.
    Preflight,
    /// 200: liveness probe.
    Status,
    /// A download of this URL was submitted.
    Download(String),
    /// 400: a download submission without a usable body.
    BadRequest,
    /// 200: anything else gets the usage text.
    Usage,
}

/// A route as plain values.
pub enum RouteView {
    Unauthorized,
    Preflight,
    Status,
    Download(Seq<char>),
    BadRequest,
    Usage,
}

impl View for BridgeRoute {
    type V = RouteView;

    open spec fn view(&self) -> RouteView {
        match self {
            BridgeRoute::Unauthorized => RouteView::Unauthorized,
            BridgeRoute::Preflight => RouteView::Preflight,
            BridgeRoute::Status => RouteView::Status,
            BridgeRoute::Download(u) => RouteView::Download(u@),
            BridgeRoute::BadRequest => RouteView::BadRequest,
            BridgeRoute::Usage => RouteView::Usage,
        }
    }
}

/// The request line: the first line, or nothing for an empty request.
pub open spec fn first_line(req: Seq<char>) -> Seq<char> {
    if lines_of(req).len() > 0 { lines_of(req)[0] } else { Seq::empty() }
}

/// The request target: the word after the method in the request line, up to the
/// next space; nothing when the line has no space.
pub open spec fn request_target(line: Seq<char>) -> Seq<char> {
    match find_first(line, seq![' ']) {
        None => Seq::empty(),
        Some(i) => {
            let rest = line.skip(i + 1);
            match find_first(rest, seq![' ']) {
                Some(j) => rest.take(j),
                None => rest,
            }
        },
    }
}

/// The path of a request target: the target without its `?` query.
pub open spec fn target_path(t: Seq<char>) -> Seq<char> {
    match find_first(t, seq!['?']) {
        Some(k) => t.take(k),
        None => t,
    }
}

/// The path a request asks for, read from its request line.
pub open spec fn request_path(req: Seq<char>) -> Seq<char> {
    target_path(request_target(first_line(req)))
}

/// How a request is routed, given whether it is authorized, the uppercase of its
/// request line, and the `url` string of the JSON body after the blank line:
/// authorization first, then a preflight, then by the path of the request line:
/// `/status`, `/download` (which needs the blank line and the `url`), and the
/// usage text for any other path.
pub open spec fn route_from(req: Seq<char>, authorized: bool, first_upper: Seq<char>,
    body_url: Option<Seq<char>>) -> RouteView
{
    if !authorized {
        RouteView::Unauthorized
    } else if starts_with(first_upper, options_word()) {
        RouteView::Preflight
    } else if request_path(req) == status_path() {
        RouteView::Status
    } else if request_path(req) == download_path() {
        match find_first(req, blank_line()) {
            Some(p) => match body_url {
                Some(u) => RouteView::Download(u),
                None => RouteView::BadRequest,
            },
            None => RouteView::BadRequest,
        }
    } else {
        RouteView::Usage
    }
}

/// The `url` string of the JSON body that follows the blank line, if any.
pub open spec fn body_url_of(req: Seq<char>) -> Option<Seq<char>> {
    match find_first(req, blank_line()) {
        Some(p) => json_url_member(req.skip(p + 4)),
        None => None,
    }
}

/// How a request is routed (`route_from` with the request's own authorization,
/// request line and body).
pub open spec fn route_of(req: Seq<char>, token: Option<Seq<char>>) -> RouteView {
    route_from(req, is_authorized(req, token), uppercase(first_line(req)), body_url_of(req))
}

/// The characters up to the first `stop`, or all of them.
fn chars_before(s: &[char], stop: char) -> (r: Vec<char>)
    ensures
        r@ == (match find_first(s@, seq![stop]) {
            Some(k) => s@.take(k),
            None => s@,
        }),
{
    let stop_v = vec![stop];
    assert(stop_v@ =~= seq![stop]);
    match find_chars(s, stop_v.as_slice(), 0) {
        Some(k) => {
            proof { lemma_find_from_bounds(s@, stop_v@, 0); }
            let r = slice_range(s, 0, k);
            assert(r@ =~= s@.take(k as int));
            r
        },
        None => {
            let r = slice_range(s, 0, s.len());
            assert(r@ =~= s@);
            r
        },
    }
}

/// The path a request line asks for (see `request_path`).
fn path_of_line(line: &[char]) -> (p: Vec<char>)
    ensures
        p@ == target_path(request_target(line@)),
{
    let space = vec![' '];
    assert(space@ =~= seq![' ']);
    let target: Vec<char> = match find_chars(line, space.as_slice(), 0) {
        None => {
            let t: Vec<char> = Vec::new();
            assert(t@ =~= request_target(line@));
            t
        },
        Some(i) => {
            proof { lemma_find_from_bounds(line@, space@, 0); }
            assert(occurs_at(line@, space@, i as int));
            let rest = slice_range(line, i + 1, line.len());
            assert(rest@ =~= line@.skip(i + 1));
            chars_before(rest.as_slice(), ' ')
        },
    };
    chars_before(target.as_slice(), '?')
}

/// Decides how the bridge answers the raw request `req` once its authorization,
/// the uppercase of its request line and the `url` of its JSON body are known.
pub fn decide_route(req: &str, authorized: bool, first_line_upper: &str, body_url: Option<String>)
    -> (r: BridgeRoute)
    ensures
        r@ == route_from(req@, authorized, first_line_upper@, opt_chars(body_url)),
{
    if !authorized {
        return BridgeRoute::Unauthorized;
    }
    let rc = str_to_chars(req);
    let upper = str_to_chars(first_line_upper);
    if has_prefix(upper.as_slice(), options_word_chars().as_slice()) {
        return BridgeRoute::Preflight;
    }
    let ls = lines_chars(rc.as_slice());
    let path = if ls.len() > 0 {
        path_of_line(ls[0].as_slice())
    } else {
        path_of_line(Vec::new().as_slice())
    };
    proof {
        if ls@.len() == 0 {
            assert(first_line(req@) =~= Seq::<char>::empty());
        }
    }
    if crate::text::chars_equal(path.as_slice(), status_path_chars().as_slice()) {
        return BridgeRoute::Status;
    }
    if crate::text::chars_equal(path.as_slice(), download_path_chars().as_slice()) {
        match find_chars(rc.as_slice(), blank_line_chars().as_slice(), 0) {
            Some(_) => match body_url {
                Some(u) => BridgeRoute::Download(u),
                None => BridgeRoute::BadRequest,
            },
            None => BridgeRoute::BadRequest,
        }
    } else {
        BridgeRoute::Usage
    }
}

/// Decides how the bridge answers the raw request text `req`, given the token
/// the bridge requires, if any.
pub fn route_request(req: &str, token: Option<&str>) -> (r: BridgeRoute)
    ensures
        r@ == route_of(req@, match token { Some(t) => Some(t@), None => None }),
{
    let authorized = check_authorized(req, token);
    let rc = str_to_chars(req);
    let ls = lines_chars(rc.as_slice());
    let first: Vec<char> = if ls.len() > 0 { slice_range(ls[0].as_slice(), 0, ls[0].len()) } else { Vec::new() };
    proof {
        if ls@.len() > 0 {
            assert(first@ =~= ls@[0]@);
        } else {
            assert(first@ =~= Seq::<char>::empty());
        }
    }
    let fs = chars_to_string(first.as_slice());
    let upper = to_uppercase(fs.as_str());
    let blank = blank_line_chars();
    let body_url = match find_chars(rc.as_slice(), blank.as_slice(), 0) {
        Some(p) => {
            proof { lemma_find_from_bounds(rc@, blank@, 0); }
            assert(occurs_at(rc@, blank@, p as int));
            assert(p + 4 <= rc.len());
            let body = slice_range(rc.as_slice(), p + 4, rc.len());
            assert(body@ =~= req@.skip(p + 4));
            let bs = chars_to_string(body.as_slice());
            json_url_field(bs.as_str())
        },
        None => None,
    };
    decide_route(req, authorized, upper.as_str(), body_url)
}

/// CORS is opened only to browser-extension origins.
pub open spec fn extension_origin(o: Seq<char>) -> bool {
    starts_with(o, chrome_origin()) || starts_with(o, firefox_origin())
}

/// The CORS header lines answered to an origin (none to an ordinary web page).
pub open spec fn cors_lines(origin: Option<Seq<char>>) -> Seq<char> {
    match origin {
        Some(o) => if extension_origin(o) { cors_start() + o + cors_rest() } else { Seq::empty() },
        None => Seq::empty(),
    }
}

/// The full reply: status line, JSON content type, the body's length in bytes,
/// `Connection: close`, the CORS lines, a blank line, then the body.
pub open spec fn response_text(status: Seq<char>, body: Seq<char>, origin: Option<Seq<char>>) -> Seq<char> {
    resp_start() + status + resp_headers() + decimal(utf8_len(body)) + resp_close()
        + cors_lines(origin) + crlf() + body
}

/// With a token configured, a request that does not present exactly that token is
/// answered 401, whatever it asks for.
pub proof fn lemma_token_required(req: Seq<char>, token: Seq<char>)
    requires
        presented_token(req) != Some(token),
    ensures
        route_of(req, Some(token)) == RouteView::Unauthorized,
{
}

/// Only browser extensions get CORS headers: for any other origin the reply is
/// exactly the one sent when no origin is given.
pub proof fn lemma_cors_only_for_extensions(status: Seq<char>, body: Seq<char>, origin: Seq<char>)
    requires
        !extension_origin(origin),
    ensures
        response_text(status, body, Some(origin)) == response_text(status, body, None),
{
}

/// Bytes of the UTF-8 encoding of `s`, counted.
fn utf8_len_of(s: &[char]) -> (n: u128)
    ensures
        n == utf8_len(s@),
{
    let mut n: u128 = 0;
    let mut i: usize = 0;
    while i < s.len()
        invariant
            i <= s.len(),
            n == utf8_len(s@.take(i as int)),
            n <= 4 * i,
        decreases s.len() - i,
    {
        proof {
            assert(s@.take(i + 1) =~= s@.take(i as int) + seq![s@[i as int]]);
            lemma_utf8_len_add(s@.take(i as int), seq![s@[i as int]]);
            assert(seq![s@[i as int]].drop_first() =~= Seq::<char>::empty());
            assert(utf8_len(Seq::<char>::empty()) == 0);
        }
        n = n + char_utf8_width(s[i]) as u128;
        i += 1;
    }
    proof { assert(s@.take(i as int) =~= s@); }
    n
}

/// Writes the reply to a bridge request: `status_line` (such as `200 OK`), a JSON
/// `body`, and CORS headers when `origin` is a browser extension's.
pub fn http_response(status_line: &str, body: &str, origin: Option<&str>) -> (r: String)
    ensures
        r@ == response_text(status_line@, body@, match origin { Some(o) => Some(o@), None => None }),
{
    let b = str_to_chars(body);
    let len = utf8_len_of(b.as_slice());
    let mut v = resp_start_chars();
    extend_chars(&mut v, str_to_chars(status_line).as_slice());
    extend_chars(&mut v, resp_headers_chars().as_slice());
    extend_chars(&mut v, decimal_chars_wide(len).as_slice());
    extend_chars(&mut v, resp_close_chars().as_slice());
    let ghost origin_v = match origin { Some(o) => Some(o@), None => None::<Seq<char>> };
    let cors: Vec<char> = match origin {
        Some(o) => {
            let oc = str_to_chars(o);
            if has_prefix(oc.as_slice(), chrome_origin_chars().as_slice())
                || has_prefix(oc.as_slice(), firefox_origin_chars().as_slice()) {
                let mut c = cors_start_chars();
                extend_chars(&mut c, oc.as_slice());
                extend_chars(&mut c, cors_rest_chars().as_slice());
                c
            } else {
                Vec::new()
            }
        },
        None => Vec::new(),
    };
    assert(cors@ =~= cors_lines(origin_v));
    extend_chars(&mut v, cors.as_slice());
    extend_chars(&mut v, crlf_chars().as_slice());
    extend_chars(&mut v, b.as_slice());
    proof {
        assert(v@ =~= response_text(status_line@, body@, origin_v));
    }
    chars_to_string(v.as_slice())
}

/// Largest request the bridge reads: beyond 1,000,000 bytes it stops.
pub const MAX_REQUEST_BYTES: usize = 1000000;

/// Whether the CR LF CR LF that ends the headers starts at byte `i`.
pub open spec fn blank_line_at(buf: Seq<u8>, i: int) -> bool {
    0 <= i && i + 4 <= buf.len() && buf[i] == 13 && buf[i + 1] == 10 && buf[i + 2] == 13
        && buf[i + 3] == 10
}

/// Where the headers end: the first CR LF CR LF in the bytes.
pub open spec fn header_end_from(buf: Seq<u8>, i: int) -> Option<int>
    decreases buf.len() + 1 - i,
{
    if i < 0 || i + 4 > buf.len() {
        None
    } else if blank_line_at(buf, i) {
        Some(i)
    } else {
        header_end_from(buf, i + 1)
    }
}

/// Value of a non-empty run of decimal digits.
pub open spec fn digits_value(s: Seq<char>) -> nat
    decreases s.len(),
{
    if s.len() == 0 { 0 } else { digits_value(s.drop_last()) * 10 + ((s.last() as u32) - 48) as nat }
}

/// All characters are ASCII digits.
pub open spec fn all_digits(s: Seq<char>) -> bool {
    forall|i: int| 0 <= i < s.len() ==> '0' <= #[trigger] s[i] && s[i] <= '9'
}

/// `str::parse::<usize>`: an optional `+`, then one or more decimal digits whose
/// value fits in `usize`.
pub open spec fn parse_usize(s: Seq<char>) -> Option<nat> {
    let d = if s.len() > 0 && s[0] == '+' { s.skip(1) } else { s };
    if d.len() > 0 && all_digits(d) && digits_value(d) <= usize::MAX {
        Some(digits_value(d))
    } else {
        None
    }
}

/// The decimal notation of a number is all digits and reads back as the number.
proof fn lemma_decimal_digits(n: nat)
    ensures
        decimal(n).len() > 0,
        all_digits(decimal(n)),
        digits_value(decimal(n)) == n,
        decimal(n)[0] != '+',
    decreases n,
{
    let c = digit_char(n % 10);
    assert(((n % 10 + 48) as u32) as char as u32 == n % 10 + 48);
    if n >= 10 {
        lemma_decimal_digits(n / 10);
        let s = decimal(n / 10);
        assert(decimal(n) == s.push(c));
        assert(s.push(c).drop_last() =~= s);
        assert forall|i: int| 0 <= i < s.push(c).len() implies '0' <= #[trigger] s.push(c)[i]
            && s.push(c)[i] <= '9' by {
            if i < s.len() {
                assert(s.push(c)[i] == s[i]);
            }
        };
        assert(s.push(c)[0] == s[0]);
        assert(s.push(c).last() == c);
        assert(digits_value(s.push(c)) == digits_value(s) * 10 + ((c as u32) - 48) as nat);
        assert((n / 10) * 10 + n % 10 == n);
    } else {
        assert(decimal(n) == seq![c]);
        assert(seq![c].drop_last() =~= Seq::<char>::empty());
        assert(seq![c].last() == c);
        assert(digits_value(seq![c]) == digits_value(Seq::<char>::empty()) * 10 + ((c as u32) - 48) as nat);
    }
}

/// Reading a length is `str::parse::<usize>`: the decimal notation of any number
/// that fits in `usize`, with or without a leading `+`, reads back as that number,
/// all of its digits counted.
pub proof fn lemma_parse_usize_decimal(n: nat)
    requires
        n <= usize::MAX,
    ensures
        parse_usize(decimal(n)) == Some(n),
        parse_usize(seq!['+'] + decimal(n)) == Some(n),
{
    lemma_decimal_digits(n);
    assert((seq!['+'] + decimal(n)).skip(1) =~= decimal(n));
}

/// The length on a header line recognised as `Content-Length`: the text after its
/// first 15 bytes, trimmed, parsed as a `usize`. (A line whose lowercase starts
/// with `content-length:` has ASCII as its first 15 characters, so byte 15 is a
/// character boundary; were it not, no length is read.)
pub open spec fn length_of_line(l: Seq<char>) -> Option<nat> {
    match skip_utf8(l, 15) {
        Some(rest) => parse_usize(trim_ws(rest)),
        None => None,
    }
}

/// The declared body length: from the first header line that starts with
/// `content-length:` (any case) and whose value parses as a `usize`; 0 when
/// none does.
pub open spec fn content_length_in(ls: Seq<Seq<char>>) -> nat
    decreases ls.len(),
{
    if ls.len() == 0 {
        0
    } else if starts_with(lowercase(ls[0]), content_length_key()) && length_of_line(ls[0]) is Some {
        length_of_line(ls[0])->0
    } else {
        content_length_in(ls.drop_first())
    }
}

/// The request in `buf` is whole: its headers have ended and the declared body
/// has arrived.
pub open spec fn request_complete(buf: Seq<u8>) -> bool {
    buf.len() >= 4 && match header_end_from(buf, 0) {
        Some(p) => buf.len() >= p + 4 + content_length_in(lines_of(utf8_lossy(buf.take(p)))),
        None => false,
    }
}

/// Reading stops once the request is whole or has grown past the limit.
pub open spec fn read_should_stop(buf: Seq<u8>) -> bool {
    request_complete(buf) || buf.len() > MAX_REQUEST_BYTES
}

pub(crate) proof fn lemma_digits_value_grows(s: Seq<char>, k: int)
    requires
        0 <= k <= s.len(),
        all_digits(s),
    ensures
        digits_value(s.take(k)) <= digits_value(s),
    decreases s.len() - k,
{
    if k < s.len() {
        lemma_digits_value_grows(s, k + 1);
        assert(s.take(k + 1).drop_last() =~= s.take(k));
    } else {
        assert(s.take(k) =~= s);
    }
}

/// `str::parse::<usize>` on characters.
fn parse_usize_chars(s: &[char]) -> (r: Option<usize>)
    ensures
        match r {
            Some(v) => parse_usize(s@) == Some(v as nat),
            None => parse_usize(s@) is None,
        },
{
    let start: usize = if s.len() > 0 && s[0] == '+' { 1 } else { 0 };
    let ghost d = if s@.len() > 0 && s@[0] == '+' { s@.skip(1) } else { s@ };
    assert(d =~= s@.skip(start as int));
    if start >= s.len() {
        return None;
    }
    let mut v: usize = 0;
    let mut i: usize = start;
    while i < s.len()
        invariant
            start <= i <= s.len(),
            start < s.len(),
            d == s@.skip(start as int),
            d == (if s@.len() > 0 && s@[0] == '+' { s@.skip(1) } else { s@ }),
            all_digits(d.take(i - start)),
            v == digits_value(d.take(i - start)),
        decreases s.len() - i,
    {
        let c = s[i];
        proof { assert(d[i - start] == c); }
        if !('0' <= c && c <= '9') {
            assert(!all_digits(d)) by { assert(!('0' <= d[i - start] && d[i - start] <= '9')); };
            return None;
        }
        proof {
            assert(d.take(i + 1 - start).drop_last() =~= d.take(i - start));
            assert(d.take(i + 1 - start).last() == c);
        }
        let digit = (c as u32 - 48) as usize;
        match v.checked_mul(10) {
            None => {
                proof { lemma_tail_overflow(d, (i + 1 - start) as int); }
                return None;
            },
            Some(m) => match m.checked_add(digit) {
                None => {
                    proof { lemma_tail_overflow(d, (i + 1 - start) as int); }
                    return None;
                },
                Some(w) => { v = w; },
            },
        }
        i += 1;
    }
    proof { assert(d.take(i - start) =~= d); }
    Some(v)
}

proof fn lemma_tail_overflow(d: Seq<char>, k: int)
    requires
        0 < k <= d.len(),
        all_digits(d.take(k)),
        digits_value(d.take(k)) > usize::MAX,
    ensures
        !(all_digits(d) && digits_value(d) <= usize::MAX),
{
    if all_digits(d) {
        lemma_digits_value_grows(d, k);
    }
}

/// Where the bytes of a request hold the blank line that ends its headers.
fn find_header_end(buf: &[u8]) -> (r: Option<usize>)
    ensures
        match r {
            Some(p) => header_end_from(buf@, 0) == Some(p as int),
            None => header_end_from(buf@, 0) is None,
        },
{
    let mut i: usize = 0;
    while i < buf.len() && 4 <= buf.len() - i
        invariant
            header_end_from(buf@, 0) == header_end_from(buf@, i as int),
            i <= buf.len(),
        decreases buf.len() - i,
    {
        if buf[i] == 13 && buf[i + 1] == 10 && buf[i + 2] == 13 && buf[i + 3] == 10 {
            return Some(i);
        }
        i += 1;
    }
    None
}

proof fn lemma_header_end_bounds(buf: Seq<u8>, i: int)
    ensures
        header_end_from(buf, i) matches Some(p) ==> i <= p && blank_line_at(buf, p),
    decreases buf.len() + 1 - i,
{
    if !(i < 0 || i + 4 > buf.len()) && !blank_line_at(buf, i) {
        lemma_header_end_bounds(buf, i + 1);
    }
}

/// The length on a line already recognised as a `Content-Length` header: the
/// text after its first 15 bytes, trimmed, read as a `usize`.
pub fn content_length_value(line: &str) -> (r: Option<usize>)
    ensures
        match r {
            Some(v) => length_of_line(line@) == Some(v as nat),
            None => length_of_line(line@) is None,
        },
{
    let l = str_to_chars(line);
    match skip_utf8_bytes(l.as_slice(), 15) {
        Some(rest) => parse_usize_chars(trim_chars(rest.as_slice(), None).as_slice()),
        None => None,
    }
}

fn content_length_from(ls: &Vec<Vec<char>>, Ghost(all): Ghost<Seq<Seq<char>>>) -> (n: usize)
    requires
        ls@.len() == all.len(),
        forall|j: int| 0 <= j < ls@.len() ==> #[trigger] ls@[j]@ == all[j],
    ensures
        n == content_length_in(all),
{
    let key = content_length_key_chars();
    let mut i: usize = 0;
    proof { assert(all.skip(0) =~= all); }
    while i < ls.len()
        invariant
            i <= ls.len(),
            ls@.len() == all.len(),
            key@ == content_length_key(),
            forall|j: int| 0 <= j < ls@.len() ==> #[trigger] ls@[j]@ == all[j],
            content_length_in(all) == content_length_in(all.skip(i as int)),
        decreases ls.len() - i,
    {
        proof {
            assert(all.skip(i as int)[0] == all[i as int]);
            assert(all.skip(i as int).drop_first() =~= all.skip(i + 1));
            assert(ls@[i as int]@ == all[i as int]);
        }
        let l = &ls[i];
        let low = lower_chars(l.as_slice());
        if has_prefix(low.as_slice(), key.as_slice()) {
            let line = chars_to_string(l.as_slice());
            match content_length_value(line.as_str()) {
                Some(v) => { return v; },
                None => {},
            }
        }
        i += 1;
    }
    0
}

/// Whether the bridge stops reading a connection after receiving `buf`: the
/// headers are complete and the body that `Content-Length` announces has
/// arrived, or more than 1,000,000 bytes came in.
pub fn request_read_done(buf: &[u8]) -> (done: bool)
    ensures
        done == read_should_stop(buf@),
{
    let mut complete = false;
    if buf.len() >= 4 {
        match find_header_end(buf) {
            Some(p) => {
                proof { lemma_header_end_bounds(buf@, 0); }
                let mut head: Vec<u8> = Vec::new();
                let mut i: usize = 0;
                while i < p
                    invariant
                        i <= p,
                        p + 4 <= buf.len(),
                        head@ == buf@.take(i as int),
                    decreases p - i,
                {
                    head.push(buf[i]);
                    proof { assert(buf@.take(i + 1) =~= buf@.take(i as int).push(buf@[i as int])); }
                    i += 1;
                }
                proof {
                    assert(header_end_from(buf@, 0) == Some(p as int));
                }
                let text = from_utf8_lossy(head.as_slice());
                let tc = str_to_chars(text.as_str());
                let ls = lines_chars(tc.as_slice());
                let cl = content_length_from(&ls, Ghost(lines_of(text@)));
                complete = (buf.len() as u128) >= (p as u128) + 4 + (cl as u128);
            },
            None => {},
        }
    }
    complete || buf.len() > MAX_REQUEST_BYTES
}

/// `Ipv4Addr::is_loopback`, `is_unspecified`, `is_private` or `is_link_local`:
/// 127.0.0.0/8, 0.0.0.0, 10.0.0.0/8, 172.16.0.0/12, 192.168.0.0/16, 169.254.0.0/16.
pub open spec fn ipv4_internal(o: Seq<u8>) -> bool {
    ||| o[0] == 127
    ||| (o[0] == 0 && o[1] == 0 && o[2] == 0 && o[3] == 0)
    ||| o[0] == 10
    ||| (o[0] == 172 && 16 <= o[1] <= 31)
    ||| (o[0] == 192 && o[1] == 168)
    ||| (o[0] == 169 && o[1] == 254)
}

/// Whether a download to this IPv4 address is refused: loopback, unspecified,
/// private or link-local.
pub fn ipv4_blocked(octets: [u8; 4]) -> (b: bool)
    ensures
        b == ipv4_internal(octets@),
{
    let a = octets[0];
    let b = octets[1];
    a == 127 || (a == 0 && b == 0 && octets[2] == 0 && octets[3] == 0) || a == 10
        || (a == 172 && 16 <= b && b <= 31) || (a == 192 && b == 168) || (a == 169 && b == 254)
}

/// `Ipv6Addr::is_loopback` (`::1`), `is_unspecified` (`::`), or a unique local
/// address (first segment masked with 0xfe00 is 0xfc00).
pub open spec fn ipv6_internal(s: Seq<u16>) -> bool {
    let zero_head = s[0] == 0 && s[1] == 0 && s[2] == 0 && s[3] == 0 && s[4] == 0 && s[5] == 0 && s[6] == 0;
    ||| (zero_head && s[7] == 1)
    ||| (zero_head && s[7] == 0)
    ||| (s[0] & 0xfe00u16) == 0xfc00u16
}

/// Whether a download to this IPv6 address (by its segments) is refused:
/// loopback, unspecified or unique local.
pub fn ipv6_blocked(segments: [u16; 8]) -> (b: bool)
    ensures
        b == ipv6_internal(segments@),
{
    let zero_head = segments[0] == 0 && segments[1] == 0 && segments[2] == 0 && segments[3] == 0
        && segments[4] == 0 && segments[5] == 0 && segments[6] == 0;
    (zero_head && segments[7] == 1) || (zero_head && segments[7] == 0)
        || (segments[0] & 0xfe00u16) == 0xfc00u16
}

/// A host as `host_str()` writes it, without the square brackets around an IPv6
/// address, so that it reads as an IP address.
pub open spec fn unbracketed(h: Seq<char>) -> Seq<char> {
    if h.len() >= 2 && h[0] == '[' && h.last() == ']' { h.subrange(1, h.len() - 1) } else { h }
}

/// `h` without the square brackets around an IPv6 address.
fn unbracket_host(h: String) -> (r: String)
    ensures
        r@ == unbracketed(h@),
{
    let c = str_to_chars(h.as_str());
    if c.len() >= 2 && c[0] == '[' && c[c.len() - 1] == ']' {
        chars_to_string(slice_range(c.as_slice(), 1, c.len() - 1).as_slice())
    } else {
        h
    }
}

/// The host a parsed URL points at, if it may be fetched at all: the URL must
/// have parsed, use `http` or `https`, and name a host; an IPv6 host comes without
/// its brackets.
pub open spec fn target_from(r: Result<UrlParts, Seq<char>>) -> Result<Seq<char>, Seq<char>> {
    match r {
        Err(e) => Err(invalid_url_prefix() + e),
        Ok(p) => if p.scheme == http_scheme() || p.scheme == https_scheme() {
            match p.host {
                Some(h) => Ok(unbracketed(h)),
                None => Err(missing_host()),
            }
        } else {
            Err(scheme_prefix() + p.scheme + scheme_suffix())
        },
    }
}

/// The host a submitted URL points at (`target_from` of the URL parse).
pub open spec fn url_target_of(raw: Seq<char>) -> Result<Seq<char>, Seq<char>> {
    target_from(url_parse(raw))
}

/// First checks on a parsed URL: it parsed, its scheme is `http` or `https`, and
/// it has a host, which is returned.
pub fn target_from_parsed(parsed: Result<ParsedUrl, String>) -> (r: Result<String, String>)
    ensures
        match r {
            Ok(h) => target_from(parsed_view(parsed)) == Ok::<Seq<char>, Seq<char>>(h@),
            Err(e) => target_from(parsed_view(parsed)) == Err::<Seq<char>, Seq<char>>(e@),
        },
{
    match parsed {
        Err(e) => {
            let mut v = invalid_url_prefix_chars();
            extend_chars(&mut v, str_to_chars(e.as_str()).as_slice());
            Err(chars_to_string(v.as_slice()))
        },
        Ok(p) => {
            let sc = str_to_chars(p.scheme.as_str());
            if crate::text::chars_equal(sc.as_slice(), http_scheme_chars().as_slice())
                || crate::text::chars_equal(sc.as_slice(), https_scheme_chars().as_slice()) {
                match p.host {
                    Some(h) => Ok(unbracket_host(h)),
                    None => Err(chars_to_string(missing_host_chars().as_slice())),
                }
            } else {
                let mut v = scheme_prefix_chars();
                extend_chars(&mut v, sc.as_slice());
                extend_chars(&mut v, scheme_suffix_chars().as_slice());
                Err(chars_to_string(v.as_slice()))
            }
        },
    }
}

/// First checks on a URL submitted through the bridge: it parses, its scheme is
/// `http` or `https`, and it has a host, which is returned.
pub fn url_target(raw: &str) -> (r: Result<String, String>)
    ensures
        match r {
            Ok(h) => url_target_of(raw@) == Ok::<Seq<char>, Seq<char>>(h@),
            Err(e) => url_target_of(raw@) == Err::<Seq<char>, Seq<char>>(e@),
        },
{
    target_from_parsed(parse_url(raw))
}

/// Last check on a submitted URL's host: the cloud metadata host is refused.
pub fn check_metadata_host(host: &str) -> (r: Result<(), String>)
    ensures
        host@ == metadata_host() <==> r is Err,
        r matches Err(e) ==> e@ == metadata_blocked(),
{
    if crate::text::chars_equal(str_to_chars(host).as_slice(), metadata_host_chars().as_slice()) {
        Err(chars_to_string(metadata_blocked_chars().as_slice()))
    } else {
        Ok(())
    }
}

} // verus!
