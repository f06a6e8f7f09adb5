//! Splitting a download into byte ranges, and the resume decisions made for
//! each range and for single-stream downloads.

use vstd::prelude::*;
use crate::text::{
    decimal, decimal_chars, extend_chars, chars_to_string, str_to_chars, find_first, find_chars,
    slice_range, occurs_at, lemma_find_from_bounds,
};
use crate::bridge::{all_digits, digits_value, lemma_digits_value_grows};

verus! {

/// Smallest chunk a multi-part download uses (256 KiB).
pub const MIN_CHUNK_SIZE: u64 = 262144;

/// Files smaller than this (512 KiB) are always fetched in one stream.
pub const MULTIPART_THRESHOLD: u64 = 524288;

/// One planned byte range `start..=end` of the file; `index` names its part file.
#[derive(Clone, Copy, Debug, PartialEq, Eq)]
pub struct ChunkRange {
    pub index: usize,
    pub start: u64,
    pub end: u64,
}

/// Bytes per chunk: an equal share of the file, but never below the minimum.
pub open spec fn chunk_size_spec(total: nat, threads: nat) -> nat {
    if total / threads >= MIN_CHUNK_SIZE as nat { total / threads } else { MIN_CHUNK_SIZE as nat }
}

/// First byte of slot `i`.
pub open spec fn slot_start(total: nat, threads: nat, i: nat) -> int {
    (i * chunk_size_spec(total, threads)) as int
}

/// Last byte of slot `i` before clamping: the last slot reaches the end of the file.
pub open spec fn slot_end(total: nat, threads: nat, i: nat) -> int {
    if i + 1 == threads {
        if total == 0 { 0 } else { total - 1 }
    } else {
        (i + 1) * chunk_size_spec(total, threads) - 1
    }
}

/// A slot takes part in the download when it starts inside the file.
pub open spec fn slot_used(total: nat, threads: nat, i: nat) -> bool {
    !(slot_start(total, threads, i) > slot_end(total, threads, i)
        || slot_start(total, threads, i) >= total)
}

/// The range of a used slot, clamped to the file.
pub open spec fn slot_range(total: nat, threads: nat, i: nat) -> ChunkRange {
    ChunkRange {
        index: i as usize,
        start: slot_start(total, threads, i) as u64,
        end: (if slot_end(total, threads, i) <= total - 1 {
            slot_end(total, threads, i)
        } else {
            total - 1
        }) as u64,
    }
}

/// The used slots among the first `k`, in slot order.
pub open spec fn planned_prefix(total: nat, threads: nat, k: nat) -> Seq<ChunkRange>
    decreases k,
{
    if k == 0 {
        Seq::empty()
    } else if slot_used(total, threads, (k - 1) as nat) {
        planned_prefix(total, threads, (k - 1) as nat).push(slot_range(total, threads, (k - 1) as nat))
    } else {
        planned_prefix(total, threads, (k - 1) as nat)
    }
}

/// The ranges a multi-part download of `total` bytes with `threads` slots fetches.
pub open spec fn planned_chunks(total: nat, threads: nat) -> Seq<ChunkRange> {
    planned_prefix(total, threads, threads)
}

/// What the arguments of `plan_chunks` must satisfy: at least one slot, and slot
/// offsets that fit in 64 bits.
pub open spec fn plan_inputs_ok(threads: nat) -> bool {
    threads >= 1 && (threads - 1) * (MIN_CHUNK_SIZE as int) <= u64::MAX
}

proof fn lemma_chunk_size_bounds(total: nat, threads: nat)
    requires
        plan_inputs_ok(threads),
        total <= u64::MAX,
    ensures
        chunk_size_spec(total, threads) >= MIN_CHUNK_SIZE,
        (threads - 1) * chunk_size_spec(total, threads) <= u64::MAX,
        (threads - 1) * chunk_size_spec(total, threads) <= total
            || chunk_size_spec(total, threads) == MIN_CHUNK_SIZE,
{
    let cs = chunk_size_spec(total, threads);
    if total / threads >= MIN_CHUNK_SIZE as nat {
        assert((threads - 1) * (total / threads) <= threads * (total / threads)) by (nonlinear_arith)
            requires threads >= 1;
        assert(threads * (total / threads) <= total) by (nonlinear_arith)
            requires threads >= 1;
    }
}

/// Splits `total_size` bytes into at most `max_threads` consecutive ranges of
/// `max(total_size / max_threads, 256 KiB)` bytes, the last range running to the
/// end of the file; slots that would start past the end are left out.
pub fn plan_chunks(total_size: u64, max_threads: usize) -> (plan: Vec<ChunkRange>)
    requires
        plan_inputs_ok(max_threads as nat),
    ensures
        plan@ == planned_chunks(total_size as nat, max_threads as nat),
{
    let ghost total = total_size as nat;
    let ghost n = max_threads as nat;
    proof { lemma_chunk_size_bounds(total, n); }
    let per_thread = total_size / (max_threads as u64);
    let chunk_size: u64 = if per_thread >= MIN_CHUNK_SIZE { per_thread } else { MIN_CHUNK_SIZE };
    assert(chunk_size == chunk_size_spec(total, n));
    let mut plan: Vec<ChunkRange> = Vec::new();
    let mut i: usize = 0;
    while i < max_threads
        invariant
            i <= max_threads,
            total == total_size,
            n == max_threads,
            plan_inputs_ok(n),
            chunk_size == chunk_size_spec(total, n),
            chunk_size >= MIN_CHUNK_SIZE,
            (n - 1) * chunk_size <= u64::MAX,
            plan@ == planned_prefix(total, n, i as nat),
        decreases max_threads - i,
    {
        assert(i * chunk_size <= (n - 1) * chunk_size) by (nonlinear_arith)
            requires i <= n - 1, chunk_size >= 0;
        let start: u64 = (i as u64) * chunk_size;
        let end: u64 = if i == max_threads - 1 {
            if total_size == 0 { 0 } else { total_size - 1 }
        } else {
            assert((i + 1) * chunk_size <= (n - 1) * chunk_size) by (nonlinear_arith)
                requires i + 1 <= n - 1, chunk_size >= 0;
            assert((i + 1) * chunk_size >= chunk_size) by (nonlinear_arith)
                requires i + 1 >= 1, chunk_size >= 0;
            ((i + 1) as u64) * chunk_size - 1
        };
        assert(start == slot_start(total, n, i as nat));
        assert(end == slot_end(total, n, i as nat));
        if !(start > end || start >= total_size) {
            let clamped: u64 = if end <= total_size - 1 { end } else { total_size - 1 };
            plan.push(ChunkRange { index: i, start, end: clamped });
        }
        i += 1;
    }
    plan
}

proof fn lemma_slot_used_iff(total: nat, threads: nat, i: nat)
    requires
        i < threads,
    ensures
        slot_used(total, threads, i) <==> slot_start(total, threads, i) < total,
{
    let cs = chunk_size_spec(total, threads);
    if i + 1 != threads {
        assert((i + 1) * cs == i * cs + cs) by (nonlinear_arith);
        assert(cs >= 1);
    }
}

proof fn lemma_slot_start_monotone(total: nat, threads: nat, i: nat, j: nat)
    requires
        i <= j,
    ensures
        slot_start(total, threads, i) <= slot_start(total, threads, j),
{
    let cs = chunk_size_spec(total, threads);
    assert(i * cs <= j * cs) by (nonlinear_arith)
        requires i <= j;
}

proof fn lemma_planned_prefix_shape(total: nat, threads: nat, k: nat)
    requires
        k <= threads,
    ensures
        planned_prefix(total, threads, k).len() <= k,
        forall|j: int| 0 <= j < planned_prefix(total, threads, k).len() ==>
            #[trigger] planned_prefix(total, threads, k)[j] == slot_range(total, threads, j as nat)
            && slot_used(total, threads, j as nat),
        forall|i: nat| planned_prefix(total, threads, k).len() <= i < k ==>
            !#[trigger] slot_used(total, threads, i),
    decreases k,
{
    if k > 0 {
        let km = (k - 1) as nat;
        lemma_planned_prefix_shape(total, threads, km);
        let prev = planned_prefix(total, threads, km);
        if slot_used(total, threads, km) {
            assert forall|i: nat| prev.len() <= i < km implies !slot_used(total, threads, i) by {};
            if prev.len() < km {
                let i = prev.len() as nat;
                assert(!slot_used(total, threads, i));
                lemma_slot_used_iff(total, threads, i);
                lemma_slot_used_iff(total, threads, km);
                lemma_slot_start_monotone(total, threads, i, km);
                assert(false);
            }
            assert(prev.len() == km);
        }
    }
}

/// Chunk planning tiles the file: every planned range is non-empty, ranges are
/// numbered by their position, the first starts at byte 0, each one starts right
/// after the previous one ends, and the last ends at the file's last byte; an empty
/// file gets no range at all.
pub proof fn lemma_plan_tiles_file(total_size: u64, max_threads: usize)
    requires
        plan_inputs_ok(max_threads as nat),
    ensures
        ({
            let p = planned_chunks(total_size as nat, max_threads as nat);
            &&& p.len() <= max_threads
            &&& (total_size == 0 <==> p.len() == 0)
            &&& forall|j: int| 0 <= j < p.len() ==> #[trigger] p[j].index == j
                && p[j].start <= p[j].end && p[j].end < total_size
            &&& total_size > 0 ==> p[0].start == 0 && p[p.len() - 1].end == total_size - 1
            &&& forall|j: int| 0 <= j < p.len() - 1 ==> #[trigger] p[j + 1].start == p[j].end + 1
        }),
{
    let total = total_size as nat;
    let n = max_threads as nat;
    lemma_planned_prefix_shape(total, n, n);
    lemma_chunk_size_bounds(total, n);
    let p = planned_chunks(total, n);
    let cs = chunk_size_spec(total, n);
    assert forall|j: int| 0 <= j < p.len() implies #[trigger] p[j].index == j
        && p[j].start <= p[j].end && p[j].end < total_size by {
        lemma_slot_used_iff(total, n, j as nat);
        assert(j * cs <= (n - 1) * cs) by (nonlinear_arith)
            requires j <= n - 1, cs >= 0;
    };
    if total > 0 {
        lemma_slot_used_iff(total, n, 0);
        assert(0 * cs == 0) by (nonlinear_arith);
        assert(slot_used(total, n, 0));
        assert(p.len() > 0);
        let last = (p.len() - 1) as nat;
        if last + 1 < n {
            assert(!slot_used(total, n, last + 1));
            lemma_slot_used_iff(total, n, last + 1);
        }
    } else {
        if p.len() > 0 {
            assert(p[0] == slot_range(total, n, 0));
            lemma_slot_used_iff(total, n, 0);
            assert(0 * cs == 0) by (nonlinear_arith);
            assert(false);
        }
    }
    assert forall|j: int| 0 <= j < p.len() - 1 implies #[trigger] p[j + 1].start == p[j].end + 1 by {
        lemma_slot_used_iff(total, n, (j + 1) as nat);
        assert((j + 1) * cs == j * cs + cs) by (nonlinear_arith);
    };
}

/// Which slots a plan uses, and their exact bounds: with `cs` the chunk size
/// (`chunk_size_spec`), slot `i` is planned exactly when its first byte
/// `slot_start = i * cs` lies inside the file, the planned ranges are the used slots in order, and slot `i` covers
/// `i * cs ..= min((i + 1) * cs - 1, total_size - 1)`, the last slot running to
/// `total_size - 1`.
pub proof fn lemma_plan_slots(total_size: u64, max_threads: usize)
    requires
        plan_inputs_ok(max_threads as nat),
    ensures
        ({
            let p = planned_chunks(total_size as nat, max_threads as nat);
            let cs = chunk_size_spec(total_size as nat, max_threads as nat);
            &&& forall|i: nat| i < max_threads ==> (i < p.len()
                <==> #[trigger] slot_start(total_size as nat, max_threads as nat, i) < total_size)
            &&& forall|j: int| 0 <= j < p.len() ==> #[trigger] p[j].start == j * cs
                && p[j].end == (if j + 1 == max_threads || (j + 1) * cs - 1 > total_size - 1 {
                    total_size - 1
                } else {
                    (j + 1) * cs - 1
                })
        }),
{
    let total = total_size as nat;
    let n = max_threads as nat;
    lemma_planned_prefix_shape(total, n, n);
    lemma_chunk_size_bounds(total, n);
    let p = planned_chunks(total, n);
    let cs = chunk_size_spec(total, n);
    assert forall|i: nat| i < max_threads implies (i < p.len()
        <==> #[trigger] slot_start(total, n, i) < total_size) by {
        lemma_slot_used_iff(total, n, i);
        if i < p.len() {
            assert(p[i as int] == slot_range(total, n, i));
        } else {
            assert(!slot_used(total, n, i));
        }
    };
    assert forall|j: int| 0 <= j < p.len() implies #[trigger] p[j].start == j * cs
        && p[j].end == (if j + 1 == max_threads || (j + 1) * cs - 1 > total_size - 1 {
            total_size - 1
        } else {
            (j + 1) * cs - 1
        }) by {
        lemma_slot_used_iff(total, n, j as nat);
        assert(j * cs <= (n - 1) * cs) by (nonlinear_arith)
            requires j <= n - 1, cs >= 0;
        if j + 1 < n {
            assert((j + 1) * cs <= (n - 1) * cs) by (nonlinear_arith)
                requires j + 1 <= n - 1, cs >= 0;
            assert((j + 1) * cs >= 1) by (nonlinear_arith)
                requires j + 1 >= 1, cs >= 1;
        }
    };
}

/// The chunk size is the equal share `total_size / max_threads` when that share is
/// at least 256 KiB, and 256 KiB otherwise: range `j` starts at `j` chunk sizes,
/// and every planned range but the last holds exactly one chunk size of bytes.
pub proof fn lemma_plan_chunk_size(total_size: u64, max_threads: usize)
    requires
        plan_inputs_ok(max_threads as nat),
    ensures
        ({
            let p = planned_chunks(total_size as nat, max_threads as nat);
            let share = total_size as int / max_threads as int;
            let cs: int = if share >= 256 * 1024 { share } else { 256 * 1024 as int };
            &&& forall|j: int| 0 <= j < p.len() ==> #[trigger] p[j].start == j * cs
            &&& forall|j: int| 0 <= j < p.len() - 1 ==> #[trigger] p[j].end - p[j].start + 1 == cs
        }),
{
    lemma_plan_slots(total_size, max_threads);
    lemma_plan_tiles_file(total_size, max_threads);
    let p = planned_chunks(total_size as nat, max_threads as nat);
    let share = total_size as int / max_threads as int;
    let cs: int = if share >= 256 * 1024 { share } else { 256 * 1024 as int };
    assert(chunk_size_spec(total_size as nat, max_threads as nat) == cs);
    assert forall|j: int| 0 <= j < p.len() - 1 implies #[trigger] p[j].end - p[j].start + 1 == cs by {
        assert(p[j + 1].start == p[j].end + 1);
        assert(p[j + 1].start == (j + 1) * cs);
        assert(p[j].start == j * cs);
        assert((j + 1) * cs == j * cs + cs) by (nonlinear_arith);
    };
}

/// What to do with one planned range, given the bytes its part file already holds.
#[derive(Clone, Copy, Debug, PartialEq, Eq, Structural)]
pub enum ChunkAction {
    /// The part file is complete; it is cut to `truncate_to` bytes when it is
    /// longer than the range (left from a plan with bigger ranges).
    Complete { truncate_to: Option<u64> },
    /// Fetch `range_start..=end` and append it to the part file.
    Fetch { range_start: u64 },
}

/// Number of bytes in a range.
pub open spec fn range_len(c: ChunkRange) -> nat {
    (c.end - c.start + 1) as nat
}

/// The resume decision for a range whose part file holds `existing` bytes.
pub open spec fn chunk_action_spec(c: ChunkRange, existing: nat) -> ChunkAction {
    if existing >= range_len(c) {
        ChunkAction::Complete {
            truncate_to: if existing > range_len(c) { Some(range_len(c) as u64) } else { None },
        }
    } else {
        ChunkAction::Fetch {
            range_start: (if c.start + existing <= c.end { c.start + existing } else { c.end as int }) as u64,
        }
    }
}

/// Decides how a planned range resumes: a part file that already holds the whole
/// range is kept (cut back if it is longer), otherwise fetching continues right
/// after the bytes it holds.
pub fn chunk_action(chunk: ChunkRange, existing_len: u64) -> (a: ChunkAction)
    requires
        chunk.start <= chunk.end < u64::MAX,
    ensures
        a == chunk_action_spec(chunk, existing_len as nat),
        a matches ChunkAction::Fetch { range_start } ==> chunk.start <= range_start <= chunk.end
            && range_start - chunk.start == existing_len,
{
    let expected = chunk.end - chunk.start + 1;
    if existing_len >= expected {
        ChunkAction::Complete { truncate_to: if existing_len > expected { Some(expected) } else { None } }
    } else {
        let from = chunk.start + existing_len;
        ChunkAction::Fetch { range_start: if from <= chunk.end { from } else { chunk.end } }
    }
}

/// A range counts as complete exactly when its part file holds at least all of
/// its `end - start + 1` bytes; otherwise fetching resumes at `start` plus the bytes
/// already held, which lies inside the range. A complete part that is longer is cut
/// back to the range's length.
pub proof fn lemma_chunk_action_resumes(c: ChunkRange, existing: nat)
    requires
        c.start <= c.end < u64::MAX,
    ensures
        chunk_action_spec(c, existing) is Complete <==> existing >= c.end - c.start + 1,
        existing < c.end - c.start + 1 ==> chunk_action_spec(c, existing)
            == (ChunkAction::Fetch { range_start: (c.start + existing) as u64 })
            && c.start + existing <= c.end,
        existing > c.end - c.start + 1 ==> chunk_action_spec(c, existing)
            == (ChunkAction::Complete { truncate_to: Some((c.end - c.start + 1) as u64) }),
        existing == c.end - c.start + 1 ==> chunk_action_spec(c, existing)
            == (ChunkAction::Complete { truncate_to: None }),
{
}

/// Bytes of a range that count as already downloaded when its part file is
/// complete.
pub fn chunk_len(chunk: ChunkRange) -> (n: u64)
    requires
        chunk.start <= chunk.end < u64::MAX,
    ensures
        n == range_len(chunk),
{
    chunk.end - chunk.start + 1
}

/// `bytes=`, the unit of an HTTP `Range` header.
pub open spec fn bytes_unit() -> Seq<char> {
    seq!['b', 'y', 't', 'e', 's', '=']
}

/// The `Range` header value `bytes=<start>-<end>`.
pub open spec fn range_value(start: nat, end: nat) -> Seq<char> {
    bytes_unit() + decimal(start) + seq!['-'] + decimal(end)
}

/// The `Range` header value `bytes=<start>-` (to the end of the file).
pub open spec fn open_range_value(start: nat) -> Seq<char> {
    bytes_unit() + decimal(start) + seq!['-']
}

/// The `Range` header asking for bytes `start..=end`.
pub fn range_header(start: u64, end: u64) -> (h: String)
    ensures
        h@ == range_value(start as nat, end as nat),
{
    let mut v: Vec<char> = vec!['b', 'y', 't', 'e', 's', '='];
    extend_chars(&mut v, decimal_chars(start).as_slice());
    v.push('-');
    extend_chars(&mut v, decimal_chars(end).as_slice());
    proof { assert(v@ =~= range_value(start as nat, end as nat)); }
    chars_to_string(v.as_slice())
}

/// The `Range` header a single-stream download sends: from the bytes already on
/// disk to the end, or none when starting from scratch.
pub fn resume_range_header(resume_from: u64) -> (h: Option<String>)
    ensures
        match h {
            Some(v) => resume_from > 0 && v@ == open_range_value(resume_from as nat),
            None => resume_from == 0,
        },
{
    if resume_from > 0 {
        let mut v: Vec<char> = vec!['b', 'y', 't', 'e', 's', '='];
        extend_chars(&mut v, decimal_chars(resume_from).as_slice());
        v.push('-');
        proof { assert(v@ =~= open_range_value(resume_from as nat)); }
        Some(chars_to_string(v.as_slice()))
    } else {
        None
    }
}

/// HTTP 206 Partial Content.
pub const PARTIAL_CONTENT: u16 = 206;

/// The complete length a `Content-Range` value states: the text after its first
/// `/` (as in `bytes 0-0/12345`), when that is one or more decimal digits whose
/// value fits in 64 bits; nothing otherwise (no `/`, or the unknown length `*`).
pub open spec fn range_total(v: Seq<char>) -> Option<nat> {
    match find_first(v, seq!['/']) {
        None => None,
        Some(k) => {
            let d = v.skip(k + 1);
            if d.len() > 0 && all_digits(d) && digits_value(d) <= u64::MAX {
                Some(digits_value(d))
            } else {
                None
            }
        },
    }
}

/// The value of a run of decimal digits, when it is non-empty, all digits, and
/// fits in 64 bits.
fn parse_u64_digits(d: &[char]) -> (r: Option<u64>)
    ensures
        match r {
            Some(v) => d@.len() > 0 && all_digits(d@) && digits_value(d@) <= u64::MAX
                && v == digits_value(d@),
            None => !(d@.len() > 0 && all_digits(d@) && digits_value(d@) <= u64::MAX),
        },
{
    if d.len() == 0 {
        return None;
    }
    let mut v: u64 = 0;
    let mut i: usize = 0;
    while i < d.len()
        invariant
            i <= d.len(),
            d.len() > 0,
            all_digits(d@.take(i as int)),
            v == digits_value(d@.take(i as int)),
        decreases d.len() - i,
    {
        let c = d[i];
        if !('0' <= c && c <= '9') {
            assert(!all_digits(d@)) by { assert(!('0' <= d@[i as int] && d@[i as int] <= '9')); };
            return None;
        }
        proof {
            assert(d@.take(i + 1).drop_last() =~= d@.take(i as int));
            assert(d@.take(i + 1).last() == c);
        }
        let digit = (c as u32 - 48) as u64;
        match v.checked_mul(10) {
            None => {
                proof { if all_digits(d@) { lemma_digits_value_grows(d@, i + 1); } }
                return None;
            },
            Some(m) => match m.checked_add(digit) {
                None => {
                    proof { if all_digits(d@) { lemma_digits_value_grows(d@, i + 1); } }
                    return None;
                },
                Some(w) => { v = w; },
            },
        }
        i += 1;
    }
    proof { assert(d@.take(i as int) =~= d@); }
    Some(v)
}

/// The complete length a `Content-Range` value (such as `bytes 0-0/12345`)
/// states, if it states one that fits in 64 bits.
pub fn content_range_total(value: &str) -> (r: Option<u64>)
    ensures
        match r {
            Some(n) => range_total(value@) == Some(n as nat),
            None => range_total(value@) is None,
        },
{
    let v = str_to_chars(value);
    let slash = vec!['/'];
    assert(slash@ =~= seq!['/']);
    match find_chars(v.as_slice(), slash.as_slice(), 0) {
        None => None,
        Some(k) => {
            proof { lemma_find_from_bounds(v@, slash@, 0); }
            assert(occurs_at(v@, slash@, k as int));
            let d = slice_range(v.as_slice(), k + 1, v.len());
            assert(d@ =~= v@.skip(k + 1));
            parse_u64_digits(d.as_slice())
        },
    }
}

/// The file size a probe reply reports: the complete length its `Content-Range`
/// states (a reply to `Range: bytes=0-0` carries one byte but names the whole size
/// there), else its `Content-Length`, else 0.
pub open spec fn probe_size(content_length: Option<u64>, content_range: Option<Seq<char>>) -> nat {
    let from_range = match content_range {
        Some(v) => range_total(v),
        None => None,
    };
    match from_range {
        Some(n) => n,
        None => match content_length {
            Some(c) => c as nat,
            None => 0,
        },
    }
}

/// The file size a probe reply reports, from its `Content-Length` and its
/// `Content-Range` value (when they read as text).
pub fn probe_total_size(content_length: Option<u64>, content_range: Option<&str>) -> (t: u64)
    ensures
        t == probe_size(content_length, match content_range { Some(v) => Some(v@), None => None }),
{
    let from_range = match content_range {
        Some(v) => content_range_total(v),
        None => None,
    };
    match from_range {
        Some(n) => n,
        None => match content_length {
            Some(c) => c,
            None => 0,
        },
    }
}

/// `分片下载未获得 206 响应 (status=`, the start of a chunk's refusal.
pub open spec fn chunk_refusal_start() -> Seq<char> {
    seq!['分', '片', '下', '载', '未', '获', '得', ' ', '2', '0', '6', ' ', '响', '应', ' ', '(', 's', 't', 'a',
        't', 'u', 's', '=']
}

/// `)，无法多线程拼接`, the end of a chunk's refusal.
pub open spec fn chunk_refusal_end() -> Seq<char> {
    seq![')', '，', '无', '法', '多', '线', '程', '拼', '接']
}

/// The error a chunk request ends with when the server did not answer 206:
/// appending a whole-file reply to each part would corrupt the download.
pub open spec fn chunk_refusal(status_text: Seq<char>) -> Seq<char> {
    chunk_refusal_start() + status_text + chunk_refusal_end()
}

/// Checks the reply to a chunk request: only 206 Partial Content may be written to
/// a part file; any other status (shown as `status_text`, such as `200 OK`) is
/// refused with an error naming it.
pub fn chunk_reply_ok(status: u16, status_text: &str) -> (r: Result<(), String>)
    ensures
        r is Ok <==> status == PARTIAL_CONTENT,
        r matches Err(e) ==> e@ == chunk_refusal(status_text@),
{
    if status == PARTIAL_CONTENT {
        Ok(())
    } else {
        let mut v: Vec<char> = vec!['分', '片', '下', '载', '未', '获', '得', ' ', '2', '0', '6', ' ', '响', '应', ' ',
            '(', 's', 't', 'a', 't', 'u', 's', '='];
        assert(v@ == chunk_refusal_start());
        extend_chars(&mut v, str_to_chars(status_text).as_slice());
        let end: Vec<char> = vec![')', '，', '无', '法', '多', '线', '程', '拼', '接'];
        assert(end@ == chunk_refusal_end());
        extend_chars(&mut v, end.as_slice());
        Err(chars_to_string(v.as_slice()))
    }
}

/// Where a single-stream download really resumes: a server that ignored the
/// `Range` header (did not answer 206) sends the whole file, so the download
/// starts over.
pub fn effective_resume(resume_from: u64, status: u16) -> (r: u64)
    ensures
        r == (if resume_from > 0 && status != PARTIAL_CONTENT { 0 } else { resume_from }),
{
    if resume_from > 0 && status != PARTIAL_CONTENT { 0 } else { resume_from }
}

/// The file size a single-stream download reports: the response's length plus the
/// bytes it resumes after, or 0 when the length is unknown.
pub fn single_total_size(content_length: Option<u64>, resume_from: u64) -> (t: u64)
    requires
        content_length matches Some(c) ==> c + resume_from <= u64::MAX,
    ensures
        t == (match content_length { Some(c) => c + resume_from, None => 0 }),
{
    match content_length {
        Some(c) => c + resume_from,
        None => 0,
    }
}

/// Whether a file is fetched in one stream: the server does not serve byte ranges,
/// or the file is under 512 KiB.
pub fn use_single_stream(accepts_ranges: bool, total_size: u64) -> (single: bool)
    ensures
        single == (!accepts_ranges || total_size < MULTIPART_THRESHOLD),
{
    !accepts_ranges || total_size < MULTIPART_THRESHOLD
}

/// Whether an `Accept-Ranges` header value announces byte ranges: it is `bytes`.
pub fn accepts_byte_ranges(value: Option<&str>) -> (b: bool)
    ensures
        b == (value matches Some(v) && v@ == seq!['b', 'y', 't', 'e', 's']),
{
    match value {
        Some(v) => {
            let x = crate::text::str_to_chars(v);
            let w: Vec<char> = vec!['b', 'y', 't', 'e', 's'];
            crate::text::chars_equal(x.as_slice(), w.as_slice())
        },
        None => false,
    }
}

/// Whether a probe response (to `HEAD`) can be used: its status is a success
/// (2xx); otherwise a ranged `GET` is tried.
pub fn probe_usable(status: u16) -> (ok: bool)
    ensures
        ok == (200 <= status <= 299),
{
    200 <= status && status <= 299
}

/// Progress reporting for a multi-part download ends once all bytes are in.
pub fn progress_finished(downloaded: u64, total_size: u64) -> (done: bool)
    ensures
        done == (downloaded >= total_size && total_size > 0),
{
    downloaded >= total_size && total_size > 0
}

/// How a multi-part download ends once every part has stopped.
#[derive(Clone, Copy, Debug, PartialEq, Eq, Structural)]
pub enum ChunkedOutcome {
    /// Paused or cancelled: the parts stay for a later resume; the status that
    /// pause or cancel set is kept.
    Interrupted,
    /// Every part succeeded: merge them into the file and mark it completed.
    Merge,
    /// A part failed: mark the download failed, keeping the parts for a retry.
    Fail,
}

/// The outcome of a multi-part download.
pub fn chunked_outcome(was_cancelled: bool, all_success: bool) -> (o: ChunkedOutcome)
    ensures
        o == (if was_cancelled { ChunkedOutcome::Interrupted } else if all_success {
            ChunkedOutcome::Merge
        } else {
            ChunkedOutcome::Fail
        }),
{
    if was_cancelled {
        ChunkedOutcome::Interrupted
    } else if all_success {
        ChunkedOutcome::Merge
    } else {
        ChunkedOutcome::Fail
    }
}

/// Delay before reading a failed stream again: 500 ms times the attempt number
/// (counting from 1), or none after the last allowed attempt.
pub fn retry_delay_ms(attempt: u32, max_retries: u32) -> (d: Option<u64>)
    ensures
        match d {
            Some(ms) => attempt < max_retries && ms == 500 * (attempt + 1),
            None => attempt >= max_retries,
        },
{
    if attempt < max_retries {
        Some(500 * ((attempt + 1) as u64))
    } else {
        None
    }
}

/// A download may start when fewer than the allowed number (at least one) are
/// running; `active_before` counts the running ones, without this one.
pub fn may_start(active_before: usize, max_concurrent: usize) -> (ok: bool)
    ensures
        ok == (active_before < (if max_concurrent >= 1 { max_concurrent } else { 1 })),
{
    let max = if max_concurrent >= 1 { max_concurrent } else { 1 };
    active_before < max
}

} // verus!
