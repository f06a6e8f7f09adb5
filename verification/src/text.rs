//! Character- and string-level helpers shared by the parsers.

use vstd::prelude::*;
use vstd::utf8::*;

verus! {

/// Copies the characters of `s` into a vector.
pub fn str_to_chars(s: &str) -> (v: Vec<char>)
    ensures
        v@ == s@,
{
    let mut v: Vec<char> = Vec::new();
    for c in it: s.chars()
        invariant
            it.seq() == s@,
            v@ == it.seq().take(it.index()),
    {
        v.push(c);
    }
    v
}

/// `String::push`: appends one character.
#[verifier::external_body]
pub(crate) fn push_char(s: &mut String, c: char)
    ensures
        final(s)@ == old(s)@.push(c),
{
    s.push(c);
}

/// Builds a string holding exactly the given characters.
pub fn chars_to_string(cs: &[char]) -> (s: String)
    ensures
        s@ == cs@,
{
    let mut s = String::new();
    let mut i: usize = 0;
    while i < cs.len()
        invariant
            i <= cs.len(),
            s@ == cs@.take(i as int),
        decreases cs.len() - i,
    {
        push_char(&mut s, cs[i]);
        proof {
            assert(cs@.take(i + 1) =~= cs@.take(i as int).push(cs@[i as int]));
        }
        i += 1;
    }
    proof {
        assert(cs@.take(cs@.len() as int) =~= cs@);
    }
    s
}

/// The ASCII digit for a value below ten.
pub open spec fn digit_char(d: nat) -> char {
    ((d + 48) as u32) as char
}

/// Decimal notation of a natural number, without sign or leading zeros.
pub open spec fn decimal(n: nat) -> Seq<char>
    decreases n,
{
    if n < 10 {
        seq![digit_char(n)]
    } else {
        decimal(n / 10).push(digit_char(n % 10))
    }
}

/// Decimal digits of `n`, as `n.to_string()` writes them.
pub fn decimal_chars(n: u64) -> (v: Vec<char>)
    ensures
        v@ == decimal(n as nat),
    decreases n,
{
    let d: u32 = (n % 10) as u32;
    let c = char_from_digit(d);
    if n < 10 {
        let mut v: Vec<char> = Vec::new();
        v.push(c);
        v
    } else {
        let mut v = decimal_chars(n / 10);
        v.push(c);
        v
    }
}

/// Decimal digits of a 128-bit `n`.
pub fn decimal_chars_wide(n: u128) -> (v: Vec<char>)
    ensures
        v@ == decimal(n as nat),
    decreases n,
{
    let d: u32 = (n % 10) as u32;
    let c = char_from_digit(d);
    if n < 10 {
        let mut v: Vec<char> = Vec::new();
        v.push(c);
        v
    } else {
        let mut v = decimal_chars_wide(n / 10);
        v.push(c);
        v
    }
}

/// The ASCII digit character for `d < 10`.
pub fn char_from_digit(d: u32) -> (c: char)
    requires
        d < 10,
    ensures
        c == digit_char(d as nat),
{
    if d == 0 { '0' }
    else if d == 1 { '1' }
    else if d == 2 { '2' }
    else if d == 3 { '3' }
    else if d == 4 { '4' }
    else if d == 5 { '5' }
    else if d == 6 { '6' }
    else if d == 7 { '7' }
    else if d == 8 { '8' }
    else { '9' }
}

/// Appends all characters of `extra` to `v`.
pub fn extend_chars(v: &mut Vec<char>, extra: &[char])
    ensures
        final(v)@ == old(v)@ + extra@,
{
    let mut i: usize = 0;
    while i < extra.len()
        invariant
            i <= extra.len(),
            v@ == old(v)@ + extra@.take(i as int),
        decreases extra.len() - i,
    {
        v.push(extra[i]);
        proof {
            assert(extra@.take(i + 1) =~= extra@.take(i as int).push(extra@[i as int]));
        }
        i += 1;
    }
    proof {
        assert(extra@.take(extra@.len() as int) =~= extra@);
    }
}


/// `char::is_whitespace`: the Unicode `White_Space` property.
pub open spec fn is_white_space(c: char) -> bool {
    let u = c as u32;
    ||| 9 <= u <= 13
    ||| u == 32
    ||| u == 0x85
    ||| u == 0xA0
    ||| u == 0x1680
    ||| 0x2000 <= u <= 0x200A
    ||| u == 0x2028
    ||| u == 0x2029
    ||| u == 0x202F
    ||| u == 0x205F
    ||| u == 0x3000
}

/// Whether `c` has the Unicode `White_Space` property.
pub fn is_whitespace(c: char) -> (b: bool)
    ensures
        b == is_white_space(c),
{
    let u = c as u32;
    (9 <= u && u <= 13) || u == 32 || u == 0x85 || u == 0xA0 || u == 0x1680
        || (0x2000 <= u && u <= 0x200A) || u == 0x2028 || u == 0x2029 || u == 0x202F
        || u == 0x205F || u == 0x3000
}

/// Number of leading characters of `s` that satisfy `p`.
pub open spec fn leading_count(s: Seq<char>, p: Option<char>) -> nat
    decreases s.len(),
{
    if s.len() == 0 || !trim_class(p, s[0]) { 0 } else { 1 + leading_count(s.drop_first(), p) }
}

/// Number of trailing characters of `s` that satisfy `p`.
pub open spec fn trailing_count(s: Seq<char>, p: Option<char>) -> nat
    decreases s.len(),
{
    if s.len() == 0 || !trim_class(p, s.last()) { 0 } else { 1 + trailing_count(s.drop_last(), p) }
}

/// `s` with the leading and trailing characters of class `p` removed
/// (what `str::trim_matches` does).
pub open spec fn trim_by(s: Seq<char>, p: Option<char>) -> Seq<char> {
    let front = s.skip(leading_count(s, p) as int);
    front.take(front.len() - trailing_count(front, p))
}

/// `str::trim`: `s` without leading and trailing white space.
pub open spec fn trim_ws(s: Seq<char>) -> Seq<char> {
    trim_by(s, None)
}

pub(crate) proof fn lemma_leading_count(s: Seq<char>, p: Option<char>, i: int)
    requires
        0 <= i <= s.len(),
        forall|j: int| 0 <= j < i ==> trim_class(p, #[trigger] s[j]),
        i == s.len() || !trim_class(p, s[i]),
    ensures
        leading_count(s, p) == i,
    decreases s.len(),
{
    if i > 0 {
        lemma_leading_count(s.drop_first(), p, i - 1);
    }
}

pub(crate) proof fn lemma_trailing_count(s: Seq<char>, p: Option<char>, i: int)
    requires
        0 <= i <= s.len(),
        forall|j: int| s.len() - i <= j < s.len() ==> trim_class(p, #[trigger] s[j]),
        i == s.len() || !trim_class(p, s[s.len() - i - 1]),
    ensures
        trailing_count(s, p) == i,
    decreases s.len(),
{
    if i > 0 {
        lemma_trailing_count(s.drop_last(), p, i - 1);
    }
}

/// The characters that a trim removes: white space, or just the character `only`.
pub open spec fn trim_class(only: Option<char>, c: char) -> bool {
    match only {
        Some(x) => c == x,
        None => is_white_space(c),
    }
}

/// `str::trim_matches(x)`: `s` without leading and trailing copies of `x`.
pub open spec fn trim_char(s: Seq<char>, x: char) -> Seq<char> {
    trim_by(s, Some(x))
}

/// `str::trim_matches('.')`: `s` without leading and trailing full stops.
pub open spec fn trim_dots(s: Seq<char>) -> Seq<char> {
    trim_char(s, '.')
}

fn in_trim_class(c: char, only: Option<char>) -> (b: bool)
    ensures
        b == trim_class(only, c),
{
    match only {
        Some(x) => c == x,
        None => is_whitespace(c),
    }
}

/// Removes leading and trailing white space (`str::trim`), or leading and trailing
/// copies of one character (`str::trim_matches`).
pub fn trim_chars(s: &[char], only: Option<char>) -> (r: Vec<char>)
    ensures
        r@ == (match only {
            Some(x) => trim_char(s@, x),
            None => trim_ws(s@),
        }),
{
    let ghost p = only;
    let mut a: usize = 0;
    while a < s.len() && in_trim_class(s[a], only)
        invariant
            a <= s.len(),
            forall|j: int| 0 <= j < a ==> trim_class(only, #[trigger] s@[j]),
        decreases s.len() - a,
    {
        a += 1;
    }
    proof { lemma_leading_count(s@, p, a as int); }
    let ghost front = s@.skip(a as int);
    let mut b: usize = s.len();
    while b > a && in_trim_class(s[b - 1], only)
        invariant
            a <= b <= s.len(),
            front == s@.skip(a as int),
            forall|j: int| b <= j < s.len() ==> trim_class(only, #[trigger] s@[j]),
        decreases b - a,
    {
        b -= 1;
    }
    proof {
        assert forall|j: int| front.len() - (s.len() - b) <= j < front.len()
            implies trim_class(p, #[trigger] front[j]) by {
            assert(front[j] == s@[j + a]);
        };
        if b > a {
            assert(front[front.len() - (s.len() - b) - 1] == s@[b - 1]);
        }
        lemma_trailing_count(front, p, s.len() - b);
    }
    let r = slice_range(s, a, b);
    proof {
        assert(r@ =~= trim_by(s@, p));
    }
    r
}

/// The characters `s[from..to]` as a vector.
pub fn slice_range(s: &[char], from: usize, to: usize) -> (r: Vec<char>)
    requires
        from <= to <= s.len(),
    ensures
        r@ == s@.subrange(from as int, to as int),
{
    let mut r: Vec<char> = Vec::new();
    let mut i = from;
    while i < to
        invariant
            from <= i <= to <= s.len(),
            r@ == s@.subrange(from as int, i as int),
        decreases to - i,
    {
        r.push(s[i]);
        proof {
            assert(s@.subrange(from as int, i + 1) =~= s@.subrange(from as int, i as int).push(s@[i as int]));
        }
        i += 1;
    }
    r
}

/// Number of bytes UTF-8 uses for `c`.
pub open spec fn utf8_width(c: char) -> nat {
    let u = c as u32;
    if u < 0x80 { 1 } else if u < 0x800 { 2 } else if u < 0x10000 { 3 } else { 4 }
}

/// Number of bytes of the UTF-8 encoding of `s` (what `str::len` returns).
pub open spec fn utf8_len(s: Seq<char>) -> nat
    decreases s.len(),
{
    if s.len() == 0 { 0 } else { utf8_width(s[0]) + utf8_len(s.drop_first()) }
}

/// `utf8_len` is the length of vstd's UTF-8 encoding.
pub proof fn lemma_utf8_len_encode(s: Seq<char>)
    ensures
        encode_utf8(s).len() == utf8_len(s),
    decreases s.len(),
{
    if s.len() > 0 {
        char_is_scalar(s[0]);
        lemma_utf8_len_encode(s.drop_first());
    }
}

/// `utf8_len` of a concatenation.
pub proof fn lemma_utf8_len_add(a: Seq<char>, b: Seq<char>)
    ensures
        utf8_len(a + b) == utf8_len(a) + utf8_len(b),
    decreases a.len(),
{
    if a.len() > 0 {
        assert((a + b).drop_first() =~= a.drop_first() + b);
        lemma_utf8_len_add(a.drop_first(), b);
    } else {
        assert(a + b =~= b);
    }
}

/// Byte width of `c` in UTF-8.
pub fn char_utf8_width(c: char) -> (w: usize)
    ensures
        w == utf8_width(c),
{
    let u = c as u32;
    if u < 0x80 { 1 } else if u < 0x800 { 2 } else if u < 0x10000 { 3 } else { 4 }
}

/// Name for what `str::to_lowercase` returns for a string: its Unicode lowercase.
pub uninterp spec fn lowercase(s: Seq<char>) -> Seq<char>;

/// Name for what `str::to_uppercase` returns for a string: its Unicode uppercase.
pub uninterp spec fn uppercase(s: Seq<char>) -> Seq<char>;

/// Name for what `String::from_utf8_lossy` makes of bytes: invalid sequences
/// become U+FFFD.
pub uninterp spec fn utf8_lossy(bytes: Seq<u8>) -> Seq<char>;

/// Whether every character of `s` is ASCII.
pub open spec fn is_ascii_text(s: Seq<char>) -> bool {
    forall|i: int| 0 <= i < s.len() ==> (#[trigger] s[i] as u32) < 128
}

/// The ASCII lowercase of a character: `A`..`Z` become `a`..`z`.
pub open spec fn ascii_lower(c: char) -> char {
    if 'A' <= c && c <= 'Z' { (((c as u32) + 32) as u32) as char } else { c }
}

/// The ASCII uppercase of a character: `a`..`z` become `A`..`Z`.
pub open spec fn ascii_upper(c: char) -> char {
    if 'a' <= c && c <= 'z' { (((c as u32) - 32) as u32) as char } else { c }
}

/// `str::to_lowercase`; the result is named by `lowercase`. On ASCII text the
/// Unicode lowercase mapping maps `A`..`Z` to `a`..`z` and keeps every other
/// character, one for one. `:` has no case mapping and is the lowercase of no other
/// character, so a colon in the result comes from a colon in `s`.
#[verifier::external_body]
pub(crate) fn to_lowercase(s: &str) -> (r: String)
    ensures
        r@ == lowercase(s@),
        is_ascii_text(s@) ==> r@ == s@.map_values(|c: char| ascii_lower(c)),
        r@.contains(':') ==> s@.contains(':'),
{
    s.to_lowercase()
}

/// `str::to_uppercase`; the result is named by `uppercase`. On ASCII text the
/// Unicode uppercase mapping maps `a`..`z` to `A`..`Z` and keeps every other
/// character, one for one.
#[verifier::external_body]
pub(crate) fn to_uppercase(s: &str) -> (r: String)
    ensures
        r@ == uppercase(s@),
        is_ascii_text(s@) ==> r@ == s@.map_values(|c: char| ascii_upper(c)),
{
    s.to_uppercase()
}

/// `String::from_utf8_lossy`: the result is named by `utf8_lossy`; bytes that are
/// valid UTF-8 decode to the characters they encode, as the documentation says.
#[verifier::external_body]
pub(crate) fn from_utf8_lossy(bytes: &[u8]) -> (r: String)
    ensures
        r@ == utf8_lossy(bytes@),
        valid_utf8(bytes@) ==> r@ == decode_utf8(bytes@),
{
    String::from_utf8_lossy(bytes).to_string()
}

/// Whether `pat` occurs in `s` at position `i`.
pub open spec fn occurs_at(s: Seq<char>, pat: Seq<char>, i: int) -> bool {
    0 <= i && i + pat.len() <= s.len() && s.subrange(i, i + pat.len()) == pat
}

/// Leftmost position at or after `i` where `pat` occurs (`str::find`).
pub open spec fn find_from(s: Seq<char>, pat: Seq<char>, i: int) -> Option<int>
    decreases s.len() + 1 - i,
{
    if i < 0 || i + pat.len() > s.len() {
        None
    } else if occurs_at(s, pat, i) {
        Some(i)
    } else {
        find_from(s, pat, i + 1)
    }
}

/// Leftmost position where `pat` occurs in `s`.
pub open spec fn find_first(s: Seq<char>, pat: Seq<char>) -> Option<int> {
    find_from(s, pat, 0)
}

/// Whether `s` begins with `pat`.
pub open spec fn starts_with(s: Seq<char>, pat: Seq<char>) -> bool {
    pat.len() <= s.len() && s.take(pat.len() as int) == pat
}

pub(crate) proof fn lemma_find_from_bounds(s: Seq<char>, pat: Seq<char>, i: int)
    ensures
        find_from(s, pat, i) matches Some(k) ==> i <= k && occurs_at(s, pat, k)
            && forall|j: int| i <= j < k ==> !occurs_at(s, pat, j),
    decreases s.len() + 1 - i,
{
    if !(i < 0 || i + pat.len() > s.len()) && !occurs_at(s, pat, i) {
        lemma_find_from_bounds(s, pat, i + 1);
    }
}

/// Whether `pat` occurs in `s` at `i`.
pub fn matches_at(s: &[char], pat: &[char], i: usize) -> (b: bool)
    ensures
        b == occurs_at(s@, pat@, i as int),
{
    if i > s.len() || pat.len() > s.len() - i {
        return false;
    }
    let mut j: usize = 0;
    while j < pat.len()
        invariant
            i + pat.len() <= s.len(),
            j <= pat.len(),
            forall|t: int| 0 <= t < j ==> s@[i + t] == pat@[t],
        decreases pat.len() - j,
    {
        if s[i + j] != pat[j] {
            proof {
                assert(s@.subrange(i as int, i + pat.len())[j as int] != pat@[j as int]);
            }
            return false;
        }
        j += 1;
    }
    proof {
        assert(s@.subrange(i as int, i + pat.len()) =~= pat@);
    }
    true
}

/// `str::find`: the leftmost position where `pat` occurs in `s` at or after `from`.
pub fn find_chars(s: &[char], pat: &[char], from: usize) -> (r: Option<usize>)
    requires
        from <= s.len(),
    ensures
        r matches Some(k) ==> find_from(s@, pat@, from as int) == Some(k as int),
        r is None ==> find_from(s@, pat@, from as int) is None,
{
    let mut i = from;
    while i <= s.len() && pat.len() <= s.len() - i
        invariant
            from <= i,
            i <= s.len() + 1,
            find_from(s@, pat@, from as int) == find_from(s@, pat@, i as int),
        decreases s.len() + 1 - i,
    {
        if matches_at(s, pat, i) {
            return Some(i);
        }
        if i == s.len() {
            assert(find_from(s@, pat@, i + 1) is None);
            return None;
        }
        i += 1;
    }
    None
}

/// Whether `s` begins with `pat`.
pub fn has_prefix(s: &[char], pat: &[char]) -> (b: bool)
    ensures
        b == starts_with(s@, pat@),
{
    let b = matches_at(s, pat, 0);
    proof {
        if pat@.len() <= s@.len() {
            assert(s@.subrange(0, pat@.len() as int) =~= s@.take(pat@.len() as int));
        }
    }
    b
}

/// The pieces of `s` between occurrences of `sep` (`str::split` with a `char`).
pub open spec fn split_on(s: Seq<char>, sep: char) -> Seq<Seq<char>>
    decreases s.len(),
{
    match find_first(s, seq![sep]) {
        None => seq![s],
        Some(k) => if 0 <= k < s.len() {
            seq![s.take(k)] + split_on(s.skip(k + 1), sep)
        } else {
            seq![s]
        },
    }
}

/// `str::split` on one character.
pub fn split_chars(s: &[char], sep: char) -> (pieces: Vec<Vec<char>>)
    ensures
        pieces@.len() == split_on(s@, sep).len(),
        forall|i: int| 0 <= i < pieces@.len() ==> #[trigger] pieces@[i]@ == split_on(s@, sep)[i],
{
    let mut pieces: Vec<Vec<char>> = Vec::new();
    let mut start: usize = 0;
    let sep_v = vec![sep];
    let ghost mut done: Seq<Seq<char>> = Seq::empty();
    proof { assert(s@.skip(0) =~= s@); assert(done + split_on(s@, sep) =~= split_on(s@, sep)); }
    loop
        invariant
            start <= s.len(),
            sep_v@ == seq![sep],
            pieces@.len() == done.len(),
            forall|i: int| 0 <= i < pieces@.len() ==> #[trigger] pieces@[i]@ == done[i],
            done + split_on(s@.skip(start as int), sep) == split_on(s@, sep),
        decreases s.len() - start,
    {
        let ghost rest = s@.skip(start as int);
        let found = find_chars(s, sep_v.as_slice(), start);
        proof { lemma_find_from_shift(s@, seq![sep], start as int); }
        match found {
            None => {
                let piece = slice_range(s, start, s.len());
                proof {
                    assert(piece@ =~= rest);
                    assert(split_on(rest, sep) == seq![rest]);
                    done = done.push(piece@);
                    assert(done =~= split_on(s@, sep));
                }
                pieces.push(piece);
                return pieces;
            }
            Some(k) => {
                proof { lemma_find_from_bounds(s@, seq![sep], start as int); }
                let piece = slice_range(s, start, k);
                proof {
                    assert(piece@ =~= rest.take(k - start));
                    assert(rest.skip(k - start + 1) =~= s@.skip(k + 1));
                    assert(split_on(rest, sep) == seq![rest.take(k - start)] + split_on(rest.skip(k - start + 1), sep));
                    assert(done + split_on(rest, sep) =~= done.push(piece@) + split_on(s@.skip(k + 1), sep));
                    done = done.push(piece@);
                }
                pieces.push(piece);
                start = k + 1;
            }
        }
    }
}

/// `find_from` on a suffix is `find_from` on the whole, shifted.
proof fn lemma_find_from_shift(s: Seq<char>, pat: Seq<char>, start: int)
    requires
        0 <= start <= s.len(),
    ensures
        find_first(s.skip(start), pat) == (match find_from(s, pat, start) {
            Some(k) => Some(k - start),
            None => None,
        }),
{
    lemma_find_from_shift_at(s, pat, start, start);
}

proof fn lemma_find_from_shift_at(s: Seq<char>, pat: Seq<char>, start: int, i: int)
    requires
        0 <= start <= i,
        start <= s.len(),
    ensures
        find_from(s.skip(start), pat, i - start) == (match find_from(s, pat, i) {
            Some(k) => Some(k - start),
            None => None,
        }),
    decreases s.len() + 1 - i,
{
    let t = s.skip(start);
    if i + pat.len() > s.len() {
        assert(find_from(t, pat, i - start) is None);
    } else {
        assert(occurs_at(t, pat, i - start) == occurs_at(s, pat, i)) by {
            assert(i - start + pat.len() <= t.len());
            assert(t.subrange(i - start, i - start + pat.len()) =~= s.subrange(i, i + pat.len()));
        };
        if !occurs_at(s, pat, i) {
            lemma_find_from_shift_at(s, pat, start, i + 1);
        }
    }
}

/// Whether two character slices are equal.
pub fn chars_equal(a: &[char], b: &[char]) -> (r: bool)
    ensures
        r == (a@ == b@),
{
    if a.len() != b.len() {
        return false;
    }
    let mut i: usize = 0;
    while i < a.len()
        invariant
            a.len() == b.len(),
            i <= a.len(),
            forall|j: int| 0 <= j < i ==> a@[j] == b@[j],
        decreases a.len() - i,
    {
        if a[i] != b[i] {
            return false;
        }
        i += 1;
    }
    proof { assert(a@ =~= b@); }
    true
}

/// Whether two strings hold the same characters.
pub fn str_equal(a: &str, b: &str) -> (r: bool)
    ensures
        r == (a@ == b@),
{
    let x = str_to_chars(a);
    let y = str_to_chars(b);
    chars_equal(x.as_slice(), y.as_slice())
}

/// A string holding the characters of a literal given as a vector.
pub fn string_of(cs: Vec<char>) -> (s: String)
    ensures
        s@ == cs@,
{
    chars_to_string(cs.as_slice())
}

/// `s` without one trailing carriage return.
pub open spec fn strip_cr(s: Seq<char>) -> Seq<char> {
    if s.len() > 0 && s.last() == '\r' { s.drop_last() } else { s }
}

/// `str::lines`: the pieces between `\n`, each losing one trailing `\r`; a final
/// empty piece (after a trailing `\n`, or of an empty text) is no line. The last
/// piece, not followed by `\n`, keeps its `\r`.
pub open spec fn lines_of(s: Seq<char>) -> Seq<Seq<char>> {
    let pieces = split_on(s, '\n');
    let n = pieces.len() as int;
    let body = pieces.take(n - 1).map_values(|p: Seq<char>| strip_cr(p));
    if pieces[n - 1].len() == 0 { body } else { body.push(pieces[n - 1]) }
}

pub(crate) proof fn lemma_split_on_len(s: Seq<char>, sep: char)
    ensures
        split_on(s, sep).len() >= 1,
    decreases s.len(),
{
    lemma_find_from_bounds(s, seq![sep], 0);
    match find_first(s, seq![sep]) {
        Some(k) => {
            if 0 <= k < s.len() {
                lemma_split_on_len(s.skip(k + 1), sep);
            }
        },
        None => {},
    }
}

/// `str::lines` on a character slice.
pub fn lines_chars(s: &[char]) -> (ls: Vec<Vec<char>>)
    ensures
        ls@.len() == lines_of(s@).len(),
        forall|i: int| 0 <= i < ls@.len() ==> #[trigger] ls@[i]@ == lines_of(s@)[i],
{
    let pieces = split_chars(s, '\n');
    proof { lemma_split_on_len(s@, '\n'); }
    let ghost sp = split_on(s@, '\n');
    let n = pieces.len();
    let mut ls: Vec<Vec<char>> = Vec::new();
    let mut i: usize = 0;
    while i + 1 < n
        invariant
            n == pieces@.len(),
            n == sp.len(),
            n >= 1,
            i + 1 <= n,
            forall|j: int| 0 <= j < n ==> #[trigger] pieces@[j]@ == sp[j],
            ls@.len() == i,
            forall|j: int| 0 <= j < i ==> #[trigger] ls@[j]@ == strip_cr(sp[j]),
        decreases n - i,
    {
        let p = &pieces[i];
        let mut q: Vec<char> = slice_range(p.as_slice(), 0, p.len());
        if q.len() > 0 && q[q.len() - 1] == '\r' {
            q = slice_range(p.as_slice(), 0, p.len() - 1);
        }
        proof {
            assert(p@ == sp[i as int]);
            assert(q@ =~= strip_cr(sp[i as int]));
        }
        ls.push(q);
        i += 1;
    }
    let last = &pieces[n - 1];
    if last.len() > 0 {
        ls.push(slice_range(last.as_slice(), 0, last.len()));
    }
    proof {
        let body = sp.take(n - 1).map_values(|p: Seq<char>| strip_cr(p));
        assert(lines_of(s@) == (if sp[n - 1].len() == 0 { body } else { body.push(sp[n - 1]) }));
        assert forall|j: int| 0 <= j < ls@.len() implies #[trigger] ls@[j]@ == lines_of(s@)[j] by {
            if j < n - 1 {
                assert(body[j] == strip_cr(sp[j]));
            } else {
                assert(last@ == sp[n - 1]);
            }
        };
    }
    ls
}

/// What remains of `s` after its first `n` bytes of UTF-8 (`&s[n..]`), or nothing
/// when byte `n` is not a character boundary or lies beyond the end.
pub open spec fn skip_utf8(s: Seq<char>, n: nat) -> Option<Seq<char>>
    decreases s.len(),
{
    if n == 0 {
        Some(s)
    } else if s.len() == 0 || utf8_width(s[0]) > n {
        None
    } else {
        skip_utf8(s.drop_first(), (n - utf8_width(s[0])) as nat)
    }
}

/// `&s[n..]` with `n` a byte offset: the characters after the first `n` bytes, or
/// `None` when byte `n` is not a character boundary of `s`.
pub fn skip_utf8_bytes(s: &[char], n: usize) -> (r: Option<Vec<char>>)
    ensures
        match r {
            Some(v) => skip_utf8(s@, n as nat) == Some(v@),
            None => skip_utf8(s@, n as nat) is None,
        },
{
    let mut i: usize = 0;
    let mut used: usize = 0;
    proof { assert(s@.skip(0) =~= s@); }
    while used < n
        invariant
            i <= s.len(),
            used <= n,
            skip_utf8(s@, n as nat) == skip_utf8(s@.skip(i as int), (n - used) as nat),
        decreases n - used,
    {
        if i >= s.len() {
            return None;
        }
        let w = char_utf8_width(s[i]);
        proof {
            assert(s@.skip(i as int)[0] == s@[i as int]);
            assert(s@.skip(i as int).drop_first() =~= s@.skip(i + 1));
        }
        if w > n - used {
            return None;
        }
        used = used + w;
        i += 1;
    }
    let v = slice_range(s, i, s.len());
    proof { assert(v@ =~= s@.skip(i as int)); }
    Some(v)
}

} // verus!
