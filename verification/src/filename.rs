//! File names: percent-decoding, `content-disposition` parsing and sanitising.

use vstd::prelude::*;
use vstd::utf8::{
    encode_utf8, encode_scalar, valid_utf8, decode_utf8, encode_utf8_valid_utf8, encode_utf8_decode_utf8,
};
use crate::urls::{parse_url, url_parse, opt_chars, parsed_view, ParsedUrl, UrlParts};
use crate::text::{
    leading_count, trailing_count, trim_by, trim_class, is_white_space, is_whitespace, str_to_chars, utf8_lossy,
    from_utf8_lossy, lowercase, to_lowercase, find_first, find_chars, starts_with, has_prefix,
    split_on, split_chars, trim_char, lemma_find_from_bounds, skip_utf8, skip_utf8_bytes, chars_to_string, slice_range, trim_chars, trim_ws, trim_dots, utf8_width,
    utf8_len, lemma_utf8_len_add, char_utf8_width, find_from, occurs_at, lemma_leading_count,
    lemma_trailing_count,
};

verus! {

/// The value of an ASCII hexadecimal digit, upper or lower case.
pub open spec fn hex_digit(c: u8) -> Option<u8> {
    if 48 <= c <= 57 {
        Some((c - 48) as u8)
    } else if 97 <= c <= 102 {
        Some((c - 97 + 10) as u8)
    } else if 65 <= c <= 70 {
        Some((c - 65 + 10) as u8)
    } else {
        None
    }
}

/// Value of a hexadecimal digit byte, or `None` for any other byte.
pub fn hex_val(c: u8) -> (r: Option<u8>)
    ensures
        r == hex_digit(c),
{
    // '0'..='9', 'a'..='f', 'A'..='F'
    if 48 <= c && c <= 57 {
        Some(c - 48)
    } else if 97 <= c && c <= 102 {
        Some(c - 97 + 10)
    } else if 65 <= c && c <= 70 {
        Some(c - 65 + 10)
    } else {
        None
    }
}

/// Longest file-name length, in bytes, that sanitising keeps.
pub const MAX_FILENAME_BYTES: usize = 200;

/// A directory separator: `/` or `\`.
pub open spec fn is_separator(c: char) -> bool {
    c == '/' || c == '\\'
}

/// Characters not allowed in Windows or macOS file names.
pub open spec fn is_illegal_char(c: char) -> bool {
    c == '/' || c == '\\' || c == ':' || c == '*' || c == '?' || c == '"' || c == '<' || c == '>'
        || c == '|' || c == '\0'
}

/// `char::is_control`: the Unicode general category Cc.
pub open spec fn is_control_char(c: char) -> bool {
    (c as u32) <= 0x1F || (0x7F <= (c as u32) && (c as u32) <= 0x9F)
}

/// Characters that survive the filter of `sanitize_filename`.
pub open spec fn keeps_char(c: char) -> bool {
    !is_illegal_char(c) && !is_control_char(c)
}

/// The part of `s` after its last separator (all of `s` when it has none).
pub open spec fn after_last_separator(s: Seq<char>) -> Seq<char>
    decreases s.len(),
{
    if s.len() == 0 {
        s
    } else if is_separator(s.last()) {
        Seq::empty()
    } else {
        after_last_separator(s.drop_last()).push(s.last())
    }
}

/// The longest prefix of `s` whose UTF-8 encoding fits in `limit` bytes.
pub open spec fn utf8_prefix(s: Seq<char>, limit: nat) -> Seq<char>
    decreases s.len(),
{
    if s.len() == 0 || utf8_width(s[0]) > limit {
        Seq::empty()
    } else {
        seq![s[0]] + utf8_prefix(s.drop_first(), (limit - utf8_width(s[0])) as nat)
    }
}

/// What sanitising strips from both ends of a name: white space and full stops.
pub open spec fn is_name_edge(c: char) -> bool {
    is_white_space(c) || c == '.'
}

/// Number of leading characters of `s` that are white space or full stops.
pub open spec fn edge_lead(s: Seq<char>) -> nat
    decreases s.len(),
{
    if s.len() == 0 || !is_name_edge(s[0]) { 0 } else { 1 + edge_lead(s.drop_first()) }
}

/// Number of trailing characters of `s` that are white space or full stops.
pub open spec fn edge_trail(s: Seq<char>) -> nat
    decreases s.len(),
{
    if s.len() == 0 || !is_name_edge(s.last()) { 0 } else { 1 + edge_trail(s.drop_last()) }
}

/// `s` without white space and full stops at either end.
pub open spec fn trim_edges(s: Seq<char>) -> Seq<char> {
    let front = s.skip(edge_lead(s) as int);
    front.take(front.len() - edge_trail(front))
}

/// The basename with illegal and control characters dropped.
pub open spec fn filtered_base(name: Seq<char>) -> Seq<char> {
    after_last_separator(name).filter(|c: char| keeps_char(c))
}

/// The name before the length limit: basename, filtered, and stripped of white
/// space and full stops at both ends.
pub open spec fn cleaned_name(name: Seq<char>) -> Seq<char> {
    trim_edges(filtered_base(name))
}

/// The result of `sanitize_filename`: the cleaned name, cut after the last whole
/// character within 200 bytes when it is longer.
pub open spec fn sanitized(name: Seq<char>) -> Seq<char> {
    let c = cleaned_name(name);
    if utf8_len(c) > MAX_FILENAME_BYTES { utf8_prefix(c, MAX_FILENAME_BYTES as nat) } else { c }
}

proof fn lemma_edge_lead(s: Seq<char>, i: int)
    requires
        0 <= i <= s.len(),
        forall|j: int| 0 <= j < i ==> is_name_edge(#[trigger] s[j]),
        i == s.len() || !is_name_edge(s[i]),
    ensures
        edge_lead(s) == i,
    decreases s.len(),
{
    if i > 0 {
        lemma_edge_lead(s.drop_first(), i - 1);
    }
}

proof fn lemma_edge_trail(s: Seq<char>, i: int)
    requires
        0 <= i <= s.len(),
        forall|j: int| s.len() - i <= j < s.len() ==> is_name_edge(#[trigger] s[j]),
        i == s.len() || !is_name_edge(s[s.len() - i - 1]),
    ensures
        edge_trail(s) == i,
    decreases s.len(),
{
    if i > 0 {
        lemma_edge_trail(s.drop_last(), i - 1);
    }
}

proof fn lemma_edge_bounds(s: Seq<char>)
    ensures
        edge_lead(s) <= s.len(),
        edge_trail(s) <= s.len(),
        edge_lead(s) < s.len() ==> !is_name_edge(s[edge_lead(s) as int]),
        edge_trail(s) < s.len() ==> !is_name_edge(s[s.len() - edge_trail(s) - 1]),
    decreases s.len(),
{
    if s.len() > 0 {
        lemma_edge_bounds(s.drop_first());
        lemma_edge_bounds(s.drop_last());
    }
}

/// `trim_edges` keeps a middle piece of `s` that begins and ends with neither
/// white space nor a full stop.
proof fn lemma_trim_edges(s: Seq<char>)
    ensures
        edge_lead(s) + edge_trail(s.skip(edge_lead(s) as int)) <= s.len(),
        trim_edges(s) == s.subrange(edge_lead(s) as int,
            s.len() - edge_trail(s.skip(edge_lead(s) as int))),
        trim_edges(s).len() > 0 ==> !is_name_edge(trim_edges(s)[0])
            && !is_name_edge(trim_edges(s).last()),
{
    let a = edge_lead(s) as int;
    let front = s.skip(a);
    lemma_edge_bounds(s);
    lemma_edge_bounds(front);
    let t = trim_edges(s);
    assert(t =~= s.subrange(a, s.len() - edge_trail(front)));
    if t.len() > 0 {
        assert(t[0] == front[0]);
        assert(front[0] == s[a]);
        assert(t.last() == front[front.len() - edge_trail(front) - 1]);
    }
}


proof fn lemma_after_last_separator_split(s: Seq<char>, k: int)
    requires
        0 <= k <= s.len(),
        forall|j: int| k <= j < s.len() ==> !is_separator(#[trigger] s[j]),
        k == 0 || is_separator(s[k - 1]),
    ensures
        after_last_separator(s) == s.skip(k),
    decreases s.len(),
{
    if s.len() > 0 {
        if k == s.len() {
            assert(s.skip(k) =~= Seq::<char>::empty());
        } else {
            lemma_after_last_separator_split(s.drop_last(), k);
            assert(s.drop_last().skip(k).push(s.last()) =~= s.skip(k));
        }
    } else {
        assert(s.skip(k) =~= s);
    }
}

/// `utf8_prefix` of `s` takes exactly the first `k` characters when those fit and
/// the next one does not.
proof fn lemma_utf8_prefix_len(s: Seq<char>, limit: nat, k: int)
    requires
        0 <= k <= s.len(),
        utf8_len(s.take(k)) <= limit,
        k == s.len() || utf8_len(s.take(k)) + utf8_width(s[k]) > limit,
    ensures
        utf8_prefix(s, limit) == s.take(k),
    decreases s.len(),
{
    if s.len() == 0 {
        assert(s.take(k) =~= s);
    } else if k == 0 {
        assert(s.take(0) =~= Seq::<char>::empty());
    } else {
        assert(s.take(k).drop_first() =~= s.drop_first().take(k - 1));
        assert(s.take(k)[0] == s[0]);
        let rest = s.drop_first();
        if k < s.len() {
            assert(s.take(k + 1) =~= s.take(k).push(s[k]));
            assert(rest[k - 1] == s[k]);
        }
        lemma_utf8_prefix_len(rest, (limit - utf8_width(s[0])) as nat, k - 1);
        assert(seq![s[0]] + s.drop_first().take(k - 1) =~= s.take(k));
    }
}

proof fn lemma_utf8_len_push(s: Seq<char>, c: char)
    ensures
        utf8_len(s.push(c)) == utf8_len(s) + utf8_width(c),
{
    lemma_utf8_len_add(s, seq![c]);
    assert(s + seq![c] =~= s.push(c));
    assert(seq![c].drop_first() =~= Seq::<char>::empty());
    assert(utf8_len(Seq::<char>::empty()) == 0);
    assert(utf8_len(seq![c]) == utf8_width(c));
}

proof fn lemma_utf8_prefix_props(s: Seq<char>, limit: nat)
    ensures
        utf8_len(utf8_prefix(s, limit)) <= limit,
        utf8_prefix(s, limit).len() <= s.len(),
        forall|i: int| 0 <= i < utf8_prefix(s, limit).len() ==> #[trigger] utf8_prefix(s, limit)[i] == s[i],
    decreases s.len(),
{
    if s.len() > 0 && utf8_width(s[0]) <= limit {
        let rest = (limit - utf8_width(s[0])) as nat;
        lemma_utf8_prefix_props(s.drop_first(), rest);
        lemma_utf8_len_add(seq![s[0]], utf8_prefix(s.drop_first(), rest));
        assert(seq![s[0]].drop_first() =~= Seq::<char>::empty());
        assert(utf8_len(Seq::<char>::empty()) == 0);
    } else {
        assert(utf8_len(Seq::<char>::empty()) == 0);
    }
}

proof fn lemma_utf8_len_filter(s: Seq<char>, p: spec_fn(char) -> bool)
    ensures
        utf8_len(s.filter(p)) <= utf8_len(s),
    decreases s.len(),
{
    reveal(Seq::filter);
    if s.len() > 0 {
        lemma_utf8_len_filter(s.drop_last(), p);
        lemma_utf8_len_push(s.drop_last(), s.last());
        assert(s.drop_last().push(s.last()) =~= s);
        if p(s.last()) {
            lemma_utf8_len_push(s.drop_last().filter(p), s.last());
        }
    } else {
        assert(s.filter(p) =~= Seq::<char>::empty());
    }
}

proof fn lemma_utf8_len_after_separator(s: Seq<char>)
    ensures
        utf8_len(after_last_separator(s)) <= utf8_len(s),
    decreases s.len(),
{
    if s.len() > 0 {
        lemma_utf8_len_after_separator(s.drop_last());
        lemma_utf8_len_push(s.drop_last(), s.last());
        assert(s.drop_last().push(s.last()) =~= s);
        if !is_separator(s.last()) {
            lemma_utf8_len_push(after_last_separator(s.drop_last()), s.last());
        } else {
            assert(utf8_len(Seq::<char>::empty()) == 0);
        }
    }
}

proof fn lemma_utf8_len_subrange(s: Seq<char>, a: int, b: int)
    requires
        0 <= a <= b <= s.len(),
    ensures
        utf8_len(s.subrange(a, b)) <= utf8_len(s),
{
    lemma_utf8_len_add(s.take(a), s.subrange(a, b));
    lemma_utf8_len_add(s.take(a) + s.subrange(a, b), s.skip(b));
    assert(s.take(a) + s.subrange(a, b) + s.skip(b) =~= s);
}

proof fn lemma_trim_noop(s: Seq<char>, p: Option<char>)
    requires
        s.len() > 0 ==> !trim_class(p, s[0]) && !trim_class(p, s.last()),
    ensures
        trim_by(s, p) == s,
{
    assert(leading_count(s, p) == 0);
    assert(s.skip(0) =~= s);
    assert(trailing_count(s, p) == 0);
    assert(s.take(s.len() as int) =~= s);
}

/// A sanitised name holds no directory separator, no character that is illegal in
/// file names and no control character; it is one contiguous piece of the
/// basename's kept characters (so a subsequence of the text after the last
/// separator), and takes at most 200 bytes in UTF-8.
pub proof fn lemma_sanitized_is_safe(name: Seq<char>)
    ensures
        forall|i: int| 0 <= i < sanitized(name).len() ==> keeps_char(#[trigger] sanitized(name)[i])
            && !is_separator(sanitized(name)[i]),
        utf8_len(sanitized(name)) <= MAX_FILENAME_BYTES,
        exists|a: int, b: int| 0 <= a <= b <= filtered_base(name).len()
            && sanitized(name) == filtered_base(name).subrange(a, b),
{
    broadcast use vstd::seq_lib::group_filter_ensures;
    let f = filtered_base(name);
    let q = |c: char| keeps_char(c);
    assert forall|i: int| 0 <= i < f.len() implies q(#[trigger] f[i]) by {
        after_last_separator(name).lemma_filter_pred(q, i);
    };
    lemma_trim_edges(f);
    let a = edge_lead(f) as int;
    let b = f.len() - edge_trail(f.skip(a));
    let c = cleaned_name(name);
    assert(c == f.subrange(a, b));
    if utf8_len(c) > MAX_FILENAME_BYTES {
        lemma_utf8_prefix_props(c, MAX_FILENAME_BYTES as nat);
        let m = utf8_prefix(c, MAX_FILENAME_BYTES as nat).len() as int;
        assert(sanitized(name) =~= f.subrange(a, a + m));
    } else {
        assert(sanitized(name) == f.subrange(a, b));
    }
}

/// A cleaned name neither begins nor ends with white space or a full stop, so
/// `trim` and `trim_matches('.')` leave it as it is; it takes no more bytes than
/// the name it came from, and a name of at most 200 bytes is sanitised to exactly
/// its cleaned form.
pub proof fn lemma_cleaned_name_trimmed(name: Seq<char>)
    ensures
        cleaned_name(name).len() > 0 ==> !is_name_edge(cleaned_name(name)[0])
            && !is_name_edge(cleaned_name(name).last()),
        trim_ws(cleaned_name(name)) == cleaned_name(name),
        trim_dots(cleaned_name(name)) == cleaned_name(name),
        utf8_len(cleaned_name(name)) <= utf8_len(name),
        utf8_len(name) <= MAX_FILENAME_BYTES ==> sanitized(name) == cleaned_name(name),
{
    let f = filtered_base(name);
    lemma_trim_edges(f);
    let c = cleaned_name(name);
    lemma_trim_noop(c, None);
    lemma_trim_noop(c, Some('.'));
    lemma_utf8_len_after_separator(name);
    lemma_utf8_len_filter(after_last_separator(name), |c: char| keeps_char(c));
    let a = edge_lead(f) as int;
    lemma_utf8_len_subrange(f, a, f.len() - edge_trail(f.skip(a)));
}

/// Removes white space and full stops from both ends of `s`.
fn trim_name_edges(s: &[char]) -> (r: Vec<char>)
    ensures
        r@ == trim_edges(s@),
{
    let mut a: usize = 0;
    while a < s.len() && (is_whitespace(s[a]) || s[a] == '.')
        invariant
            a <= s.len(),
            forall|j: int| 0 <= j < a ==> is_name_edge(#[trigger] s@[j]),
        decreases s.len() - a,
    {
        a += 1;
    }
    proof { lemma_edge_lead(s@, a as int); }
    let ghost front = s@.skip(a as int);
    let mut b: usize = s.len();
    while b > a && (is_whitespace(s[b - 1]) || s[b - 1] == '.')
        invariant
            a <= b <= s.len(),
            front == s@.skip(a as int),
            forall|j: int| b <= j < s.len() ==> is_name_edge(#[trigger] s@[j]),
        decreases b - a,
    {
        b -= 1;
    }
    proof {
        assert forall|j: int| front.len() - (s.len() - b) <= j < front.len()
            implies is_name_edge(#[trigger] front[j]) by {
            assert(front[j] == s@[j + a]);
        };
        if b > a {
            assert(front[front.len() - (s.len() - b) - 1] == s@[b - 1]);
        }
        lemma_edge_trail(front, s.len() - b);
    }
    let r = slice_range(s, a, b);
    proof {
        assert(r@ =~= trim_edges(s@));
    }
    r
}

/// The name before the length limit, as characters.
fn cleaned_chars(name: &str) -> (t2: Vec<char>)
    ensures
        t2@ == cleaned_name(name@),
{
    let cs = str_to_chars(name);
    // basename: after the last separator
    let mut k: usize = cs.len();
    while k > 0 && !(cs[k - 1] == '/' || cs[k - 1] == '\\')
        invariant
            k <= cs.len(),
            forall|j: int| k <= j < cs.len() ==> !is_separator(#[trigger] cs@[j]),
        decreases k,
    {
        k -= 1;
    }
    proof { lemma_after_last_separator_split(cs@, k as int); }
    let ghost base = cs@.skip(k as int);
    let ghost keep = |c: char| keeps_char(c);
    let mut kept: Vec<char> = Vec::new();
    let mut i = k;
    while i < cs.len()
        invariant
            k <= i <= cs.len(),
            base == cs@.skip(k as int),
            keep == (|c: char| keeps_char(c)),
            kept@ == base.take(i - k).filter(keep),
        decreases cs.len() - i,
    {
        let c = cs[i];
        let legal = !(c == '/' || c == '\\' || c == ':' || c == '*' || c == '?' || c == '"'
            || c == '<' || c == '>' || c == '|' || c == '\0');
        let u = c as u32;
        let control = u <= 0x1F || (0x7F <= u && u <= 0x9F);
        proof {
            assert(base.take(i + 1 - k).drop_last() =~= base.take(i - k));
            assert(base.take(i + 1 - k).last() == c);
            reveal(Seq::filter);
        }
        if legal && !control {
            kept.push(c);
        }
        i += 1;
    }
    proof { assert(base.take(cs.len() - k) =~= base); }
    trim_name_edges(kept.as_slice())
}

/// Whether `t` takes more than 200 bytes, and how many of its leading characters
/// fit in 200 bytes together with their byte count.
fn measure_cut(t: &[char]) -> (res: (bool, usize, usize))
    ensures
        res.0 == (utf8_len(t@) > MAX_FILENAME_BYTES),
        res.0 ==> res.1 <= t.len() && utf8_prefix(t@, MAX_FILENAME_BYTES as nat) == t@.take(res.1 as int)
            && res.2 == utf8_len(t@.take(res.1 as int)),
{
    let mut total: usize = 0;
    let mut j: usize = 0;
    while j < t.len() && total <= MAX_FILENAME_BYTES
        invariant
            j <= t.len(),
            total == utf8_len(t@.take(j as int)),
        decreases t.len() - j,
    {
        proof {
            assert(t@.take(j + 1) =~= t@.take(j as int).push(t@[j as int]));
            lemma_utf8_len_push(t@.take(j as int), t@[j as int]);
        }
        total = total + char_utf8_width(t[j]);
        j += 1;
    }
    proof {
        lemma_utf8_len_add(t@.take(j as int), t@.skip(j as int));
        assert(t@.take(j as int) + t@.skip(j as int) =~= t@);
    }
    if total > MAX_FILENAME_BYTES {
        let mut used: usize = 0;
        let mut m: usize = 0;
        while m < t.len() && used + char_utf8_width(t[m]) <= MAX_FILENAME_BYTES
            invariant
                m <= t.len(),
                used == utf8_len(t@.take(m as int)),
                used <= MAX_FILENAME_BYTES,
            decreases t.len() - m,
        {
            proof {
                assert(t@.take(m + 1) =~= t@.take(m as int).push(t@[m as int]));
                lemma_utf8_len_push(t@.take(m as int), t@[m as int]);
            }
            used = used + char_utf8_width(t[m]);
            m += 1;
        }
        proof { lemma_utf8_prefix_len(t@, MAX_FILENAME_BYTES as nat, m as int); }
        (true, m, used)
    } else {
        (false, 0, 0)
    }
}

/// Cleans a file name: keeps only the part after the last `/` or `\`, drops
/// characters that are illegal in file names and control characters, strips white
/// space and full stops from both ends, and cuts the result after the last whole
/// character that fits in 200 bytes.
pub fn sanitize_filename(name: &str) -> (out: String)
    ensures
        out@ == sanitized(name@),
        forall|i: int| 0 <= i < out@.len() ==> keeps_char(#[trigger] out@[i]),
        utf8_len(out@) <= MAX_FILENAME_BYTES,
{
    proof { lemma_sanitized_is_safe(name@); }
    let t = cleaned_chars(name);
    let (too_long, m, _used) = measure_cut(t.as_slice());
    if too_long {
        let cut = slice_range(t.as_slice(), 0, m);
        proof { assert(cut@ =~= t@.take(m as int)); }
        chars_to_string(cut.as_slice())
    } else {
        chars_to_string(t.as_slice())
    }
}

/// Bytes after percent-decoding: `%` followed by two hexadecimal digits becomes
/// the byte they spell; every other byte is kept.
pub open spec fn percent_decode_bytes(b: Seq<u8>) -> Seq<u8>
    decreases b.len(),
{
    if b.len() == 0 {
        b
    } else if b[0] == 37 && b.len() > 2 && hex_digit(b[1]) is Some && hex_digit(b[2]) is Some {
        seq![(hex_digit(b[1])->0 * 16 + hex_digit(b[2])->0) as u8] + percent_decode_bytes(b.skip(3))
    } else {
        seq![b[0]] + percent_decode_bytes(b.skip(1))
    }
}

/// The text `percent_decode` returns: the decoded bytes read as UTF-8, with
/// invalid sequences replaced.
pub open spec fn percent_decoded(s: Seq<char>) -> Seq<char> {
    utf8_lossy(percent_decode_bytes(encode_utf8(s)))
}

/// Decodes `%XX` escapes (two hexadecimal digits) in `s` to bytes and reads the
/// result as UTF-8, replacing invalid sequences with U+FFFD.
pub fn percent_decode(s: &str) -> (out: String)
    ensures
        out@ == percent_decoded(s@),
        valid_utf8(percent_decode_bytes(encode_utf8(s@)))
            ==> out@ == decode_utf8(percent_decode_bytes(encode_utf8(s@))),
{
    let out = percent_decode_to_bytes(s);
    from_utf8_lossy(out.as_slice())
}

/// The bytes `percent_decode` reads as UTF-8: the UTF-8 bytes of `s` with each
/// `%XX` escape (two hexadecimal digits) replaced by the byte it spells.
pub fn percent_decode_to_bytes(s: &str) -> (out: Vec<u8>)
    ensures
        out@ == percent_decode_bytes(encode_utf8(s@)),
{
    let bytes = s.as_bytes();
    let mut out: Vec<u8> = Vec::new();
    let mut i: usize = 0;
    proof { assert(bytes@.skip(0) =~= bytes@); }
    while i < bytes.len()
        invariant
            i <= bytes.len(),
            bytes@ == encode_utf8(s@),
            out@ + percent_decode_bytes(bytes@.skip(i as int)) == percent_decode_bytes(bytes@),
        decreases bytes.len() - i,
    {
        let ghost rest = bytes@.skip(i as int);
        if bytes[i] == 37 && bytes.len() >= 3 && i < bytes.len() - 2 {
            let h = hex_val(bytes[i + 1]);
            let l = hex_val(bytes[i + 2]);
            if h.is_some() && l.is_some() {
                let hv = h.unwrap();
                let lv = l.unwrap();
                let v: u8 = hv * 16 + lv;
                proof {
                    assert(rest[1] == bytes@[i + 1]);
                    assert(rest[2] == bytes@[i + 2]);
                    assert(rest.skip(3) =~= bytes@.skip(i + 3));
                    assert(out@.push(v) + percent_decode_bytes(bytes@.skip(i + 3))
                        =~= out@ + percent_decode_bytes(rest));
                }
                out.push(v);
                i += 3;
                continue;
            }
        }
        proof {
            assert(rest.skip(1) =~= bytes@.skip(i + 1));
            assert(out@.push(bytes@[i as int]) + percent_decode_bytes(bytes@.skip(i + 1))
                =~= out@ + percent_decode_bytes(rest));
        }
        out.push(bytes[i]);
        i += 1;
    }
    proof {
        assert(bytes@.skip(i as int) =~= Seq::<u8>::empty());
        assert(out@ =~= percent_decode_bytes(bytes@));
    }
    out
}

/// Percent-decoding leaves bytes without `%` unchanged.
pub proof fn lemma_percent_decode_no_escape(b: Seq<u8>)
    requires
        forall|i: int| 0 <= i < b.len() ==> b[i] != 37,
    ensures
        percent_decode_bytes(b) == b,
    decreases b.len(),
{
    if b.len() > 0 {
        lemma_percent_decode_no_escape(b.skip(1));
        assert(seq![b[0]] + b.skip(1) =~= b);
    }
}

/// Decoding `%` followed by the two hexadecimal digits of a byte gives that byte
/// back, whatever follows.
pub proof fn lemma_percent_decode_escape(v: u8, hi: u8, lo: u8, rest: Seq<u8>)
    requires
        hex_digit(hi) == Some((v / 16) as u8),
        hex_digit(lo) == Some((v % 16) as u8),
    ensures
        percent_decode_bytes(seq![37u8, hi, lo] + rest) == seq![v] + percent_decode_bytes(rest),
{
    let b = seq![37u8, hi, lo] + rest;
    assert(b[0] == 37 && b[1] == hi && b[2] == lo);
    assert(b.skip(3) =~= rest);
}

/// The hexadecimal digit character for `d < 16`, upper or lower case.
pub open spec fn hex_char(d: nat, upper: bool) -> char {
    if d < 10 {
        ((48 + d) as u32) as char
    } else if upper {
        ((55 + d) as u32) as char
    } else {
        ((87 + d) as u32) as char
    }
}

/// Every byte written as `%` and its two hexadecimal digits.
pub open spec fn percent_encode_all(b: Seq<u8>, upper: bool) -> Seq<char>
    decreases b.len(),
{
    if b.len() == 0 {
        Seq::empty()
    } else {
        seq!['%', hex_char((b[0] / 16) as nat, upper), hex_char((b[0] % 16) as nat, upper)]
            + percent_encode_all(b.skip(1), upper)
    }
}

proof fn lemma_encode_utf8_add(a: Seq<char>, b: Seq<char>)
    ensures
        encode_utf8(a + b) == encode_utf8(a) + encode_utf8(b),
    decreases a.len(),
{
    if a.len() == 0 {
        assert(a + b =~= b);
        assert(encode_utf8(a) =~= Seq::<u8>::empty());
        assert(Seq::<u8>::empty() + encode_utf8(b) =~= encode_utf8(b));
    } else {
        assert((a + b).drop_first() =~= a.drop_first() + b);
        assert((a + b)[0] == a[0]);
        lemma_encode_utf8_add(a.drop_first(), b);
        assert(encode_scalar(a[0] as u32) + (encode_utf8(a.drop_first()) + encode_utf8(b))
            =~= (encode_scalar(a[0] as u32) + encode_utf8(a.drop_first())) + encode_utf8(b));
    }
}

proof fn lemma_ascii_byte(v: u32)
    requires
        v < 128,
    ensures
        encode_scalar(v) == seq![v as u8],
{
    assert(v & 0x7f == v) by (bit_vector)
        requires
            v < 128;
}

proof fn lemma_hex_char(d: nat, upper: bool)
    requires
        d < 16,
    ensures
        (hex_char(d, upper) as u32) < 128,
        hex_digit((hex_char(d, upper) as u32) as u8) == Some(d as u8),
{
}

proof fn lemma_encode_escape(v: u8, upper: bool)
    ensures
        encode_utf8(seq!['%', hex_char((v / 16) as nat, upper), hex_char((v % 16) as nat, upper)])
            == seq![37u8, (hex_char((v / 16) as nat, upper) as u32) as u8,
                (hex_char((v % 16) as nat, upper) as u32) as u8],
{
    let h = hex_char((v / 16) as nat, upper);
    let l = hex_char((v % 16) as nat, upper);
    lemma_hex_char((v / 16) as nat, upper);
    lemma_hex_char((v % 16) as nat, upper);
    let e = seq!['%', h, l];
    lemma_ascii_byte('%' as u32);
    lemma_ascii_byte(h as u32);
    lemma_ascii_byte(l as u32);
    assert(e.drop_first() =~= seq![h, l]);
    assert(seq![h, l].drop_first() =~= seq![l]);
    assert(seq![l].drop_first() =~= Seq::<char>::empty());
    assert(encode_utf8(Seq::<char>::empty()) =~= Seq::<u8>::empty());
    assert(seq![l][0] == l);
    assert(seq![h, l][0] == h);
    assert(e[0] == '%');
    assert(encode_utf8(seq![l]) == encode_scalar(l as u32) + encode_utf8(Seq::<char>::empty()));
    assert(encode_utf8(seq![l]) =~= seq![(l as u32) as u8]);
    assert(encode_utf8(seq![h, l]) =~= seq![(h as u32) as u8, (l as u32) as u8]);
    assert(encode_utf8(e) =~= seq![37u8, (h as u32) as u8, (l as u32) as u8]);
}

proof fn lemma_percent_decode_encoded(b: Seq<u8>, upper: bool)
    ensures
        percent_decode_bytes(encode_utf8(percent_encode_all(b, upper))) == b,
    decreases b.len(),
{
    if b.len() == 0 {
        assert(encode_utf8(Seq::<char>::empty()) =~= Seq::<u8>::empty());
    } else {
        let v = b[0];
        let e3 = seq!['%', hex_char((v / 16) as nat, upper), hex_char((v % 16) as nat, upper)];
        let rest = percent_encode_all(b.skip(1), upper);
        lemma_encode_utf8_add(e3, rest);
        lemma_encode_escape(v, upper);
        lemma_hex_char((v / 16) as nat, upper);
        lemma_hex_char((v % 16) as nat, upper);
        lemma_percent_decode_escape(v, (hex_char((v / 16) as nat, upper) as u32) as u8,
            (hex_char((v % 16) as nat, upper) as u32) as u8, encode_utf8(rest));
        lemma_percent_decode_encoded(b.skip(1), upper);
        assert(seq![v] + b.skip(1) =~= b);
    }
}

/// Percent-decoding undoes percent-encoding: write each UTF-8 byte of a text as
/// `%` and two hexadecimal digits (upper or lower case), and decoding gives back
/// those bytes, which are valid UTF-8 and read as the text itself; so
/// `percent_decode` returns the text.
pub proof fn lemma_percent_round_trip(s: Seq<char>, upper: bool)
    ensures
        percent_decode_bytes(encode_utf8(percent_encode_all(encode_utf8(s), upper))) == encode_utf8(s),
        valid_utf8(encode_utf8(s)),
        decode_utf8(encode_utf8(s)) == s,
{
    lemma_percent_decode_encoded(encode_utf8(s), upper);
    encode_utf8_valid_utf8(s);
    encode_utf8_decode_utf8(s);
}

/// `filename*=` as it opens an extended parameter.
pub open spec fn ext_param_key() -> Seq<char> {
    seq!['f', 'i', 'l', 'e', 'n', 'a', 'm', 'e', '*', '=']
}

/// `filename=` as it opens a plain parameter.
pub open spec fn plain_param_key() -> Seq<char> {
    seq!['f', 'i', 'l', 'e', 'n', 'a', 'm', 'e', '=']
}

/// The `''` between the charset/language and the value of an extended parameter.
pub open spec fn ext_value_mark() -> Seq<char> {
    seq!['\'', '\'']
}

/// The value of an extended parameter whose key (`filename*=`, 10 bytes) has
/// been recognised: after the key, past the first `''`, percent-decoded; nothing
/// when that decodes to an empty name or there is no `''`. (A text whose
/// lowercase starts with the key has ASCII as its first ten characters, so byte 10
/// is a character boundary; were it not, no value is read.)
pub open spec fn ext_param_value(t: Seq<char>) -> Option<Seq<char>> {
    match skip_utf8(t, 10) {
        Some(val) => match find_first(val, ext_value_mark()) {
            Some(k) => {
                let decoded = percent_decoded(val.skip(k + 2));
                if decoded.len() > 0 { Some(decoded) } else { None }
            },
            None => None,
        },
        None => None,
    }
}

/// The value of one `;`-separated segment if it is `filename*=<charset>''<value>`
/// (key in any case) and the value decodes to something non-empty.
pub open spec fn ext_segment_value(seg: Seq<char>) -> Option<Seq<char>> {
    let t = trim_ws(seg);
    if starts_with(lowercase(t), ext_param_key()) { ext_param_value(t) } else { None }
}

/// The first segment, in order, that yields an extended value.
pub open spec fn first_ext_value(segs: Seq<Seq<char>>) -> Option<Seq<char>>
    decreases segs.len(),
{
    if segs.len() == 0 {
        None
    } else {
        match ext_segment_value(segs[0]) {
            Some(v) => Some(v),
            None => first_ext_value(segs.drop_first()),
        }
    }
}

/// The plain `filename=` value: the text after the first `filename=` up to the
/// next `filename=` and then up to the first `;`, with quotes and apostrophes
/// trimmed from both ends and then white space; absent when that leaves nothing.
pub open spec fn plain_value(d: Seq<char>) -> Option<Seq<char>> {
    match find_first(d, plain_param_key()) {
        None => None,
        Some(i) => {
            let after = d.skip(i + 9);
            let piece = match find_first(after, plain_param_key()) {
                Some(j) => after.take(j),
                None => after,
            };
            let name = trim_ws(trim_char(trim_char(split_on(piece, ';')[0], '"'), '\''));
            if name.len() > 0 { Some(name) } else { None }
        },
    }
}

/// What `parse_content_disposition` returns for a header value.
pub open spec fn disposition_filename(d: Seq<char>) -> Option<Seq<char>> {
    match first_ext_value(split_on(d, ';')) {
        Some(v) => Some(v),
        None => plain_value(d),
    }
}

proof fn lemma_split_on_nonempty(s: Seq<char>, sep: char)
    ensures
        split_on(s, sep).len() >= 1,
        split_on(s, sep)[0] == (match find_first(s, seq![sep]) {
            Some(k) => s.take(k),
            None => s,
        }),
{
    lemma_find_from_bounds(s, seq![sep], 0);
    match find_first(s, seq![sep]) {
        Some(k) => { assert(0 <= k < s.len()); }
        None => {}
    }
}

/// The file name of a trimmed `filename*=<charset>''<value>` parameter whose key
/// has been recognised: the value after `''`, percent-decoded, if not empty.
pub fn extended_param_value(param: &str) -> (r: Option<String>)
    ensures
        opt_chars(r) == ext_param_value(param@),
{
    let t = str_to_chars(param);
    let val = match skip_utf8_bytes(t.as_slice(), 10) {
        Some(v) => v,
        None => { return None; },
    };
    let mark: Vec<char> = vec!['\'', '\''];
    assert(mark@ == ext_value_mark());
    match find_chars(val.as_slice(), mark.as_slice(), 0) {
        Some(k) => {
            proof { lemma_find_from_bounds(val@, mark@, 0); }
            assert(crate::text::occurs_at(val@, mark@, k as int));
            assert(k + 2 <= val.len());
            let enc = slice_range(val.as_slice(), k + 2, val.len());
            assert(enc@ =~= val@.skip(k + 2));
            let enc_s = chars_to_string(enc.as_slice());
            let decoded = percent_decode(enc_s.as_str());
            if !decoded.as_str().is_empty() {
                Some(decoded)
            } else {
                None
            }
        },
        None => None,
    }
}

fn ext_value_of_segment(seg: &[char]) -> (r: Option<String>)
    ensures
        opt_chars(r) == ext_segment_value(seg@),
{
    let t = trim_chars(seg, None);
    let ts = chars_to_string(t.as_slice());
    let lower = str_to_chars(to_lowercase(ts.as_str()).as_str());
    let key: Vec<char> = vec!['f', 'i', 'l', 'e', 'n', 'a', 'm', 'e', '*', '='];
    assert(key@ == ext_param_key());
    if !has_prefix(lower.as_slice(), key.as_slice()) {
        return None;
    }
    extended_param_value(ts.as_str())
}

/// Extracts the file name from a `content-disposition` header: the first
/// `filename*=UTF-8''<percent-encoded>` parameter (key in any case) that decodes
/// to a non-empty name, else the plain `filename="..."` value, else nothing.
pub fn parse_content_disposition(disposition: &str) -> (r: Option<String>)
    ensures
        r matches Some(v) ==> disposition_filename(disposition@) == Some(v@),
        r is None ==> disposition_filename(disposition@) is None,
{
    let d = str_to_chars(disposition);
    let segs = split_chars(d.as_slice(), ';');
    let ghost all = split_on(d@, ';');
    let mut i: usize = 0;
    proof { assert(all.skip(0) =~= all); }
    while i < segs.len()
        invariant
            i <= segs.len(),
            segs@.len() == all.len(),
            all == split_on(d@, ';'),
            d@ == disposition@,
            forall|j: int| 0 <= j < segs@.len() ==> #[trigger] segs@[j]@ == all[j],
            first_ext_value(all) == first_ext_value(all.skip(i as int)),
        decreases segs.len() - i,
    {
        let found = ext_value_of_segment(segs[i].as_slice());
        proof {
            assert(found is Some <==> ext_segment_value(all[i as int]) is Some);
            assert(all.skip(i as int)[0] == all[i as int]);
            assert(all.skip(i as int).drop_first() =~= all.skip(i + 1));
        }
        if found.is_some() {
            return found;
        }
        i += 1;
    }
    proof { assert(all.skip(i as int).len() == 0); }
    // plain `filename=` form
    let key: Vec<char> = vec!['f', 'i', 'l', 'e', 'n', 'a', 'm', 'e', '='];
    assert(key@ == plain_param_key());
    match find_chars(d.as_slice(), key.as_slice(), 0) {
        None => None,
        Some(p) => {
            proof { lemma_find_from_bounds(d@, key@, 0); }
            assert(crate::text::occurs_at(d@, key@, p as int));
            assert(p + 9 <= d.len());
            let after = slice_range(d.as_slice(), p + 9, d.len());
            assert(after@ =~= d@.skip(p + 9));
            let piece = match find_chars(after.as_slice(), key.as_slice(), 0) {
                Some(j) => {
                    proof { lemma_find_from_bounds(after@, key@, 0); }
                    let pc = slice_range(after.as_slice(), 0, j);
                    assert(pc@ =~= after@.take(j as int));
                    pc
                },
                None => after,
            };
            let parts = split_chars(piece.as_slice(), ';');
            proof { lemma_split_on_nonempty(piece@, ';'); }
            let n1 = trim_chars(parts[0].as_slice(), Some('"'));
            let n2 = trim_chars(n1.as_slice(), Some('\''));
            let n3 = trim_chars(n2.as_slice(), None);
            if n3.len() > 0 {
                Some(chars_to_string(n3.as_slice()))
            } else {
                None
            }
        },
    }
}

/// `download`: the name used when no other can be found.
pub open spec fn fallback_name() -> Seq<char> {
    seq!['d', 'o', 'w', 'n', 'l', 'o', 'a', 'd']
}

/// The name a URL gives a download: its last path segment, `download` when it
/// has no path segments; a URL that did not parse gives its error.
pub open spec fn name_from_url(r: Result<UrlParts, Seq<char>>) -> Result<Seq<char>, Seq<char>> {
    match r {
        Ok(parts) => Ok(match parts.last_segment {
            Some(seg) => seg,
            None => fallback_name(),
        }),
        Err(e) => Err(e),
    }
}

/// The name a download starts from, before sanitising: the `content-disposition`
/// file name when there is one, else the name the URL gives.
pub open spec fn filename_candidate_spec(url: Seq<char>, disposition: Option<Seq<char>>)
    -> Result<Seq<char>, Seq<char>>
{
    let from_header = match disposition {
        Some(d) => disposition_filename(d),
        None => None,
    };
    match from_header {
        Some(n) => Ok(n),
        None => name_from_url(url_parse(url)),
    }
}

/// `attachment; filename=`, the usual opening of a header that names its file.
pub open spec fn attachment_plain_opening() -> Seq<char> {
    seq!['a', 't', 't', 'a', 'c', 'h', 'm', 'e', 'n', 't', ';', ' ', 'f', 'i', 'l', 'e', 'n', 'a', 'm',
        'e', '=']
}

/// `find_from` passes over positions where the text does not hold the pattern's
/// first character.
proof fn lemma_find_from_skip(s: Seq<char>, pat: Seq<char>, a: int, b: int)
    requires
        0 <= a <= b,
        pat.len() > 0,
        b + pat.len() <= s.len(),
        forall|i: int| a <= i < b ==> s[i] != pat[0],
    ensures
        find_from(s, pat, a) == find_from(s, pat, b),
    decreases b - a,
{
    if a < b {
        assert(s.subrange(a, a + pat.len())[0] == s[a]);
        assert(!occurs_at(s, pat, a));
        lemma_find_from_skip(s, pat, a + 1, b);
    }
}

/// A character that `s` does not hold is not found in it.
proof fn lemma_char_absent(s: Seq<char>, c: char)
    requires
        forall|i: int| 0 <= i < s.len() ==> s[i] != c,
    ensures
        find_first(s, seq![c]) is None,
{
    lemma_find_from_bounds(s, seq![c], 0);
    if let Some(k) = find_first(s, seq![c]) {
        assert(s.subrange(k, k + 1)[0] == s[k]);
    }
}

/// The plain `filename=` value is the whole quoted name, spaces and all: for a
/// non-empty name without `;`, quotes or apostrophes, not starting or ending with
/// white space and not itself holding `filename=`, the header
/// `attachment; filename="<name>"` gives exactly that name (whenever no
/// `filename*=` parameter takes precedence).
pub proof fn lemma_plain_quoted_name(n: Seq<char>)
    requires
        n.len() > 0,
        forall|i: int| 0 <= i < n.len() ==> n[i] != ';' && n[i] != '"' && n[i] != '\'',
        !is_white_space(n[0]),
        !is_white_space(n.last()),
        find_first(n, plain_param_key()) is None,
    ensures
        plain_value(attachment_plain_opening() + seq!['"'] + n + seq!['"']) == Some(n),
        first_ext_value(split_on(attachment_plain_opening() + seq!['"'] + n + seq!['"'], ';')) is None
            ==> disposition_filename(attachment_plain_opening() + seq!['"'] + n + seq!['"']) == Some(n),
{
    let key = plain_param_key();
    let d = attachment_plain_opening() + seq!['"'] + n + seq!['"'];
    assert(d.len() == n.len() + 23);
    // the key first occurs right after `attachment; `
    assert forall|i: int| 0 <= i < 12 implies d[i] != key[0] by {
        assert(d[i] == attachment_plain_opening()[i]);
    };
    lemma_find_from_skip(d, key, 0, 12);
    assert(d.subrange(12, 21) =~= key);
    assert(occurs_at(d, key, 12));
    assert(find_first(d, key) == Some(12int));
    let after = d.skip(21);
    assert(after =~= seq!['"'] + n + seq!['"']);
    // no later key: it would lie inside the name
    lemma_find_from_bounds(after, key, 0);
    if let Some(j) = find_first(after, key) {
        assert(occurs_at(after, key, j));
        assert(after.subrange(j, j + 9)[0] == after[j]);
        assert(after[0] == '"');
        assert(j >= 1);
        assert(after.subrange(j, j + 9)[8] == after[j + 8]);
        assert(after[after.len() - 1] == '"');
        assert(j + 9 <= after.len() - 1);
        assert(n.subrange(j - 1, j + 8) =~= after.subrange(j, j + 9));
        assert(occurs_at(n, key, j - 1));
        crate::bridge::lemma_find_some(n, key, j - 1, 0);
        assert(false);
    }
    // no `;`: the piece is all of it
    assert forall|i: int| 0 <= i < after.len() implies after[i] != ';' by {
        if 1 <= i < after.len() - 1 {
            assert(after[i] == n[i - 1]);
        }
    };
    lemma_char_absent(after, ';');
    assert(split_on(after, ';') == seq![after]);
    // the quotes go, and only they
    assert forall|j: int| 0 <= j < 1 implies trim_class(Some('"'), #[trigger] after[j]) by {};
    assert(after[1] == n[0]);
    lemma_leading_count(after, Some('"'), 1);
    let front = after.skip(1);
    assert(front =~= n + seq!['"']);
    assert forall|j: int| front.len() - 1 <= j < front.len() implies trim_class(Some('"'), #[trigger] front[j]) by {};
    assert(front[front.len() - 2] == n.last());
    lemma_trailing_count(front, Some('"'), 1);
    assert(trim_char(after, '"') =~= n);
    lemma_trim_noop(n, Some('\''));
    lemma_trim_noop(n, None);
}

/// Where a download's name comes from: a file name in the header is taken as it
/// is; a header that yields none leaves the choice to the URL, exactly as having
/// no header does; and the URL gives its last path segment, `download` when it
/// has none, or its parse error.
pub proof fn lemma_candidate_sources(url: Seq<char>, d: Seq<char>)
    ensures
        disposition_filename(d) matches Some(n)
            ==> filename_candidate_spec(url, Some(d)) == Ok::<Seq<char>, Seq<char>>(n),
        disposition_filename(d) is None
            ==> filename_candidate_spec(url, Some(d)) == filename_candidate_spec(url, None),
        filename_candidate_spec(url, None) == (match url_parse(url) {
            Ok(p) => Ok::<Seq<char>, Seq<char>>(match p.last_segment {
                Some(s) => s,
                None => seq!['d', 'o', 'w', 'n', 'l', 'o', 'a', 'd'],
            }),
            Err(e) => Err::<Seq<char>, Seq<char>>(e),
        }),
{
}

/// The name a parsed URL gives a download (see `name_from_url`).
pub fn name_from_parsed(parsed: Result<ParsedUrl, String>) -> (r: Result<String, String>)
    ensures
        match r {
            Ok(n) => name_from_url(parsed_view(parsed)) == Ok::<Seq<char>, Seq<char>>(n@),
            Err(e) => name_from_url(parsed_view(parsed)) == Err::<Seq<char>, Seq<char>>(e@),
        },
{
    match parsed {
        Ok(parts) => match parts.last_segment {
            Some(seg) => Ok(seg),
            None => {
                let v: Vec<char> = vec!['d', 'o', 'w', 'n', 'l', 'o', 'a', 'd'];
                Ok(chars_to_string(v.as_slice()))
            },
        },
        Err(e) => Err(e),
    }
}

/// Chooses the raw file name for a download from the response's
/// `content-disposition` header (when it reads as text) and the URL.
pub fn filename_candidate(url: &str, disposition: Option<&str>) -> (r: Result<String, String>)
    ensures
        match r {
            Ok(n) => filename_candidate_spec(url@, match disposition { Some(d) => Some(d@), None => None })
                == Ok::<Seq<char>, Seq<char>>(n@),
            Err(e) => filename_candidate_spec(url@, match disposition { Some(d) => Some(d@), None => None })
                == Err::<Seq<char>, Seq<char>>(e@),
        },
{
    let from_header = match disposition {
        Some(d) => parse_content_disposition(d),
        None => None,
    };
    match from_header {
        Some(n) => Ok(n),
        None => name_from_parsed(parse_url(url)),
    }
}

/// The file name a download is saved under: the sanitised candidate, or
/// `download` when sanitising leaves nothing.
pub fn finish_filename(candidate: &str) -> (name: String)
    ensures
        name@.len() > 0,
        name@ == (if sanitized(candidate@).len() == 0 { fallback_name() } else { sanitized(candidate@) }),
{
    let cleaned = sanitize_filename(candidate);
    if cleaned.as_str().is_empty() {
        let v: Vec<char> = vec!['d', 'o', 'w', 'n', 'l', 'o', 'a', 'd'];
        chars_to_string(v.as_slice())
    } else {
        cleaned
    }
}

/// `.part.`, between a file's name and the number of one of its chunk files.
pub open spec fn part_marker() -> Seq<char> {
    seq!['.', 'p', 'a', 'r', 't', '.']
}

/// An ASCII decimal digit.
pub open spec fn is_ascii_digit(c: char) -> bool {
    '0' <= c && c <= '9'
}

/// Whether `name` is exactly `<base>.part.<digits>` with at least one ASCII digit:
/// a chunk file of the download saved as `base`.
pub open spec fn is_part_file_of(name: Seq<char>, base: Seq<char>) -> bool {
    starts_with(name, base) && starts_with(name.skip(base.len() as int), part_marker())
        && name.len() > base.len() + 6
        && forall|i: int| base.len() + 6 <= i < name.len() ==> is_ascii_digit(#[trigger] name[i])
}

/// Whether the directory entry `name` is a chunk file of the download saved as
/// `base`, which is removed together with the download.
pub fn is_part_file_name(name: &str, base: &str) -> (b: bool)
    ensures
        b == is_part_file_of(name@, base@),
{
    let n = str_to_chars(name);
    let bs = str_to_chars(base);
    if !has_prefix(n.as_slice(), bs.as_slice()) {
        return false;
    }
    let rest = slice_range(n.as_slice(), bs.len(), n.len());
    assert(rest@ =~= n@.skip(bs.len() as int));
    let marker: Vec<char> = vec!['.', 'p', 'a', 'r', 't', '.'];
    assert(marker@ == part_marker());
    if !has_prefix(rest.as_slice(), marker.as_slice()) {
        return false;
    }
    if n.len() <= bs.len() + 6 {
        return false;
    }
    let mut i: usize = bs.len() + 6;
    while i < n.len()
        invariant
            bs.len() + 6 <= i <= n.len(),
            n.len() > bs.len() + 6,
            n@ == name@,
            bs@ == base@,
            starts_with(n@, bs@),
            starts_with(n@.skip(bs.len() as int), part_marker()),
            forall|j: int| bs.len() + 6 <= j < i ==> is_ascii_digit(#[trigger] n@[j]),
        decreases n.len() - i,
    {
        if !('0' <= n[i] && n[i] <= '9') {
            assert(!is_ascii_digit(n@[i as int]));
            return false;
        }
        i += 1;
    }
    true
}

} // verus!
