//! Numbers out of raw bytes: every maximal run of ASCII digits is read as one number.
//!
//! There are two ways to scan. The scalar way looks at every byte. The batch way takes the
//! bytes sixteen at a time: it classifies a whole chunk at once, passes over a chunk without a
//! digit in one step and walks any other by its classification; what is left at the end is
//! scanned the scalar way. Both yield the same numbers, and a run is one number wherever it
//! lies.

use crate::digits::{all_digits, decimal_value, is_digit, parsed_u32};
use vstd::prelude::*;

verus! {

/// The number of bytes that the batch scan classifies at once.
pub const CHUNK: usize = 16;

/// An ASCII decimal digit.
pub open spec fn is_digit_byte(b: u8) -> bool {
    48 <= b <= 57
}

/// Bytes read as characters, one for one.
pub open spec fn as_chars(bytes: Seq<u8>) -> Seq<char> {
    bytes.map_values(|b: u8| b as char)
}

/// A run of digits starts at `p`: `p` holds a digit and the byte before it, if there is one,
/// holds none.
pub open spec fn starts_run(bytes: Seq<u8>, p: int) -> bool {
    &&& 0 <= p < bytes.len()
    &&& is_digit_byte(bytes[p])
    &&& (p == 0 || !is_digit_byte(bytes[p - 1]))
}

/// `p` is no place in the middle of a run: the bytes before and at `p` are not both digits.
spec fn between_runs(bytes: Seq<u8>, p: int) -> bool {
    &&& 0 <= p <= bytes.len()
    &&& !(0 < p < bytes.len() && is_digit_byte(bytes[p - 1]) && is_digit_byte(bytes[p]))
}

/// Where the digits that begin at `p` end: the first position from `p` on that holds no digit,
/// or the end of the bytes.
pub open spec fn run_end(bytes: Seq<u8>, p: int) -> int
    decreases bytes.len() - p,
{
    if 0 <= p < bytes.len() && is_digit_byte(bytes[p]) {
        run_end(bytes, p + 1)
    } else {
        p
    }
}

/// What the position `p` adds to the numbers: the number of the run that starts there, if one
/// starts there and its number fits in 32 bits, and nothing otherwise.
pub open spec fn token_at(bytes: Seq<u8>, p: int) -> Seq<u32> {
    if starts_run(bytes, p) {
        run_token(bytes.subrange(p, run_end(bytes, p)))
    } else {
        Seq::empty()
    }
}

/// The numbers of the runs that start at a position from `from` up to, not including, `to`, in
/// the order of these positions.
pub open spec fn tokens_between(bytes: Seq<u8>, from: int, to: int) -> Seq<u32>
    decreases to - from,
{
    if to <= from {
        Seq::empty()
    } else {
        tokens_between(bytes, from, to - 1) + token_at(bytes, to - 1)
    }
}

/// The numbers in `bytes`: one for every maximal run of digits whose number fits in 32 bits,
/// from left to right.
pub open spec fn number_tokens(bytes: Seq<u8>) -> Seq<u32> {
    tokens_between(bytes, 0, bytes.len() as int)
}

/// The number of one run, if it fits in 32 bits.
pub open spec fn run_token(run: Seq<u8>) -> Seq<u32> {
    match parsed_u32(as_chars(run)) {
        Some(n) => seq![n],
        None => Seq::empty(),
    }
}

/// The numbers gathered chunk by chunk over the first `chunks` chunks: for one chunk after the
/// other, the numbers of the runs that start in it.
pub open spec fn chunk_tokens(bytes: Seq<u8>, chunks: nat) -> Seq<u32>
    decreases chunks,
{
    if chunks == 0 {
        Seq::empty()
    } else {
        chunk_tokens(bytes, (chunks - 1) as nat) + tokens_between(
            bytes,
            (chunks - 1) * CHUNK,
            chunks * CHUNK,
        )
    }
}

/// The numbers as the batch scan gathers them: chunk by chunk over the whole chunks, then those
/// of the runs that start in what is left.
pub open spec fn batch_tokens(bytes: Seq<u8>) -> Seq<u32> {
    let whole = bytes.len() / CHUNK as nat;
    chunk_tokens(bytes, whole) + tokens_between(bytes, whole * CHUNK, bytes.len() as int)
}

/// The two ways to scan.
#[derive(Clone, Copy, Debug, PartialEq, Eq, Structural)]
pub enum ScanStrategy {
    /// Sixteen bytes at a time, the rest byte by byte.
    Batch,
    /// Byte by byte.
    Scalar,
}

/// The numbers that a scan of `bytes` gathers under `strategy`.
pub open spec fn strategy_tokens(strategy: ScanStrategy, bytes: Seq<u8>) -> Seq<u32> {
    match strategy {
        ScanStrategy::Batch => batch_tokens(bytes),
        ScanStrategy::Scalar => number_tokens(bytes),
    }
}

/// Bit `k` of a chunk's classification.
pub open spec fn mask_bit(mask: u16, k: int) -> bool {
    (mask >> (k as u16)) & 1 == 1
}

/// The numbers of a stretch are those of its first part followed by those of its second.
pub proof fn lemma_tokens_split(bytes: Seq<u8>, from: int, mid: int, to: int)
    requires
        from <= mid <= to,
    ensures
        tokens_between(bytes, from, to) == tokens_between(bytes, from, mid) + tokens_between(
            bytes,
            mid,
            to,
        ),
    decreases to - mid,
{
    if mid < to {
        lemma_tokens_split(bytes, from, mid, to - 1);
    }
}

/// A stretch in which no run starts adds no number.
pub proof fn lemma_tokens_without_start(bytes: Seq<u8>, from: int, to: int)
    requires
        forall|p: int| from <= p < to ==> !starts_run(bytes, p),
    ensures
        tokens_between(bytes, from, to) == Seq::<u32>::empty(),
    decreases to - from,
{
    if from < to {
        lemma_tokens_without_start(bytes, from, to - 1);
    }
}

/// `end` is where the digits from `p` end, given that everything from `p` up to `end` is a
/// digit and that `end` is the end of the bytes or holds no digit.
pub proof fn lemma_run_end(bytes: Seq<u8>, p: int, end: int)
    requires
        0 <= p <= end <= bytes.len(),
        forall|k: int| p <= k < end ==> is_digit_byte(bytes[k]),
        end < bytes.len() ==> !is_digit_byte(bytes[end]),
    ensures
        run_end(bytes, p) == end,
    decreases end - p,
{
    if p < end {
        lemma_run_end(bytes, p + 1, end);
    }
}

/// Reads the run of digits that begins at `start`: where it ends, and its number if that fits
/// in 32 bits.
fn read_run(bytes: &[u8], start: usize) -> (r: (usize, Option<u32>))
    requires
        start < bytes@.len(),
        is_digit_byte(bytes@[start as int]),
    ensures
        start < r.0 <= bytes@.len(),
        r.0 == run_end(bytes@, start as int),
        r.1 == parsed_u32(as_chars(bytes@.subrange(start as int, r.0 as int))),
{
    let n = bytes.len();
    let mut end: usize = start;
    let mut acc: u32 = 0;
    let mut fits = true;
    while end < n && bytes[end] >= 48 && bytes[end] <= 57
        invariant
            start <= end <= n,
            n == bytes@.len(),
            is_digit_byte(bytes@[start as int]),
            forall|k: int| start <= k < end ==> is_digit_byte(bytes@[k]),
            fits ==> acc == decimal_value(as_chars(bytes@.subrange(start as int, end as int))),
            !fits ==> decimal_value(as_chars(bytes@.subrange(start as int, end as int)))
                > u32::MAX,
        decreases n - end,
    {
        let d: u32 = (bytes[end] - 48) as u32;
        proof {
            let longer = as_chars(bytes@.subrange(start as int, end + 1));
            assert(longer.drop_last() =~= as_chars(bytes@.subrange(start as int, end as int)));
        }
        if fits {
            if acc > 429496729 || (acc == 429496729 && d > 5) {
                fits = false;
            } else {
                acc = acc * 10 + d;
            }
        }
        end += 1;
    }
    proof {
        lemma_run_end(bytes@, start as int, end as int);
        let run = as_chars(bytes@.subrange(start as int, end as int));
        assert forall|i: int| 0 <= i < run.len() implies is_digit(#[trigger] run[i]) by {
            assert(run[i] == bytes@[start + i] as char);
        }
    }
    (end, if fits { Some(acc) } else { None })
}

/// Scans the stretch from `start` up to, not including, `limit` byte by byte and appends to
/// `out` the numbers of the runs that start in it. A run that is under way at `start` started
/// earlier and is passed over; a run that starts in the stretch is read to its end, also where
/// that lies beyond `limit`.
fn scan_stretch(bytes: &[u8], start: usize, limit: usize, out: &mut Vec<u32>)
    requires
        start <= limit <= bytes@.len(),
    ensures
        final(out)@ == old(out)@ + tokens_between(bytes@, start as int, limit as int),
{
    let n = bytes.len();
    let mut pos: usize = start;
    if pos > 0 && bytes[pos - 1] >= 48 && bytes[pos - 1] <= 57 {
        while pos < limit && bytes[pos] >= 48 && bytes[pos] <= 57
            invariant
                0 < start <= pos <= limit <= n,
                n == bytes@.len(),
                forall|k: int| start - 1 <= k < pos ==> is_digit_byte(bytes@[k]),
            decreases limit - pos,
        {
            pos += 1;
        }
        proof {
            lemma_tokens_without_start(bytes@, start as int, pos as int);
        }
    }
    while pos < limit
        invariant
            start <= pos <= n,
            start <= limit <= n,
            n == bytes@.len(),
            pos < limit ==> between_runs(bytes@, pos as int),
            pos <= limit ==> out@ == old(out)@ + tokens_between(bytes@, start as int, pos as int),
            pos > limit ==> out@ == old(out)@ + tokens_between(bytes@, start as int, limit as int),
        decreases n - pos,
    {
        if bytes[pos] >= 48 && bytes[pos] <= 57 {
            let (end, number) = read_run(bytes, pos);
            proof {
                let reach = if end <= limit { end as int } else { limit as int };
                assert forall|p: int| pos < p < end implies !starts_run(bytes@, p) by {
                    lemma_run_digits(bytes@, pos as int, p);
                }
                lemma_tokens_without_start(bytes@, pos + 1, reach);
                lemma_tokens_split(bytes@, start as int, pos + 1, reach);
                lemma_run_stops(bytes@, pos as int);
            }
            match number {
                Some(value) => out.push(value),
                None => {},
            }
            pos = end;
        } else {
            pos += 1;
        }
    }
}

/// Every position of a run but its first follows a digit.
pub proof fn lemma_run_digits(bytes: Seq<u8>, p: int, k: int)
    requires
        0 <= p < k <= run_end(bytes, p),
    ensures
        k <= bytes.len(),
        is_digit_byte(bytes[k - 1]),
    decreases k - p,
{
    if k > p + 1 {
        lemma_run_digits(bytes, p + 1, k);
    }
}

/// A run stops at the end of the bytes or before a byte that holds no digit.
pub proof fn lemma_run_stops(bytes: Seq<u8>, p: int)
    requires
        0 <= p <= bytes.len(),
    ensures
        p <= run_end(bytes, p) <= bytes.len(),
        run_end(bytes, p) < bytes.len() ==> !is_digit_byte(bytes[run_end(bytes, p)]),
    decreases bytes.len() - p,
{
    if p < bytes.len() && is_digit_byte(bytes[p]) {
        lemma_run_stops(bytes, p + 1);
    }
}

/// The numbers in `bytes`, found byte by byte.
pub fn extract_numbers_scalar(bytes: &[u8]) -> (numbers: Vec<u32>)
    ensures
        numbers@ == number_tokens(bytes@),
{
    let mut numbers: Vec<u32> = Vec::new();
    scan_stretch(bytes, 0, bytes.len(), &mut numbers);
    numbers
}

/// Gathering chunk by chunk over any number of whole chunks gives the numbers of the runs that
/// start in these chunks.
pub proof fn lemma_chunk_tokens(bytes: Seq<u8>, chunks: nat)
    ensures
        chunk_tokens(bytes, chunks) == tokens_between(bytes, 0, chunks * CHUNK),
    decreases chunks,
{
    if chunks > 0 {
        lemma_chunk_tokens(bytes, (chunks - 1) as nat);
        lemma_tokens_split(bytes, 0, (chunks - 1) * CHUNK, chunks * CHUNK);
    }
}

/// The numbers that the batch scan gathers chunk by chunk are the numbers in the bytes.
pub proof fn lemma_batch_equals_scalar(bytes: Seq<u8>)
    ensures
        batch_tokens(bytes) == number_tokens(bytes),
{
    let whole = bytes.len() / CHUNK as nat;
    lemma_chunk_tokens(bytes, whole);
    lemma_tokens_split(bytes, 0, whole * CHUNK, bytes.len() as int);
}

/// The strategies agree: for every input, a scan gathers the same numbers under either of them,
/// the numbers in the bytes.
pub proof fn lemma_strategies_agree(first: ScanStrategy, second: ScanStrategy, bytes: Seq<u8>)
    ensures
        strategy_tokens(first, bytes) == strategy_tokens(second, bytes),
        strategy_tokens(first, bytes) == number_tokens(bytes),
{
    lemma_batch_equals_scalar(bytes);
}

/// The digits that begin at `p` of a part of some bytes end at the same place in the whole,
/// unless they reach the end of the part and go on behind it.
proof fn lemma_run_end_in_part(whole: Seq<u8>, part: Seq<u8>, offset: int, p: int)
    requires
        0 <= offset,
        offset + part.len() <= whole.len(),
        whole.subrange(offset, offset + part.len()) == part,
        0 <= p < part.len(),
        is_digit_byte(part[p]),
        offset + part.len() < whole.len() ==> !is_digit_byte(part.last()) || !is_digit_byte(
            whole[offset + part.len()],
        ),
    ensures
        run_end(whole, offset + p) == offset + run_end(part, p),
{
    let end = run_end(part, p);
    lemma_run_stops(part, p);
    assert forall|k: int| offset + p <= k < offset + end implies is_digit_byte(whole[k]) by {
        lemma_run_digits(part, p, k - offset + 1);
    }
    if end == part.len() && offset + end < whole.len() {
        lemma_run_digits(part, p, end);
    }
    lemma_run_end(whole, offset + p, offset + end);
}

/// The numbers of a part of some bytes are found in the whole at the part's place, given that
/// no run crosses either end of the part.
pub proof fn lemma_tokens_of_part(whole: Seq<u8>, part: Seq<u8>, offset: int, to: int)
    requires
        0 <= offset,
        offset + part.len() <= whole.len(),
        whole.subrange(offset, offset + part.len()) == part,
        0 <= to <= part.len(),
        offset > 0 && part.len() > 0 ==> !is_digit_byte(whole[offset - 1]) || !is_digit_byte(
            part[0],
        ),
        offset + part.len() < whole.len() && part.len() > 0 ==> !is_digit_byte(part.last())
            || !is_digit_byte(whole[offset + part.len()]),
    ensures
        tokens_between(whole, offset, offset + to) == tokens_between(part, 0, to),
    decreases to,
{
    if to > 0 {
        lemma_tokens_of_part(whole, part, offset, to - 1);
        let p = to - 1;
        if starts_run(part, p) {
            lemma_run_end_in_part(whole, part, offset, p);
            lemma_run_stops(part, p);
            assert(whole.subrange(offset + p, offset + run_end(part, p)) == part.subrange(
                p,
                run_end(part, p),
            ));
        }
    }
}

/// A run of digits is one number wherever it lies. Where some bytes are made of a first part
/// that does not end in a digit, a non-empty run of digits and a last part that does not begin
/// with a digit, their numbers are those of the first part, the number of the run, and those of
/// the last part. No position in the bytes plays a part, so no boundary between chunks splits
/// the run or merges it with another.
pub proof fn lemma_run_is_one_token(before: Seq<u8>, run: Seq<u8>, after: Seq<u8>)
    requires
        run.len() > 0,
        forall|k: int| 0 <= k < run.len() ==> is_digit_byte(run[k]),
        before.len() > 0 ==> !is_digit_byte(before.last()),
        after.len() > 0 ==> !is_digit_byte(after[0]),
    ensures
        number_tokens(before + run + after) == number_tokens(before) + run_token(run)
            + number_tokens(after),
        batch_tokens(before + run + after) == number_tokens(before) + run_token(run)
            + number_tokens(after),
{
    let whole = before + run + after;
    let a = before.len() as int;
    let b = a + run.len();
    assert(whole.subrange(0, a) == before);
    assert(whole.subrange(a, b) == run);
    assert(whole.subrange(b, whole.len() as int) == after);
    lemma_tokens_of_part(whole, before, 0, a);
    lemma_tokens_of_part(whole, after, b, after.len() as int);
    assert forall|k: int| a <= k < b implies is_digit_byte(whole[k]) by {
        assert(whole[k] == run[k - a]);
    }
    lemma_run_end(whole, a, b);
    assert forall|p: int| a < p < b implies !starts_run(whole, p) by {
        assert(is_digit_byte(whole[p - 1]));
    }
    lemma_tokens_without_start(whole, a + 1, b);
    lemma_tokens_split(whole, a, a + 1, b);
    assert(tokens_between(whole, a, a + 1) == tokens_between(whole, a, a) + token_at(whole, a));
    lemma_tokens_split(whole, 0, a, b);
    lemma_tokens_split(whole, 0, b, whole.len() as int);
    lemma_batch_equals_scalar(whole);
}

/// The scan and the number reader agree: bytes that are one run of digits hold exactly the
/// number that `parsed_u32` reads in them, or none where it reads none.
pub proof fn lemma_lone_number(run: Seq<u8>)
    requires
        run.len() > 0,
        forall|k: int| 0 <= k < run.len() ==> is_digit_byte(run[k]),
    ensures
        number_tokens(run) == run_token(run),
{
    let nothing = Seq::<u8>::empty();
    lemma_run_is_one_token(nothing, run, nothing);
}

/// Classifies one chunk: bit `k` of the result tells whether byte `k` of the chunk that begins
/// at `start` is a digit.
pub fn digit_mask(bytes: &[u8], start: usize) -> (mask: u16)
    requires
        start + CHUNK <= bytes@.len(),
    ensures
        forall|k: int|
            0 <= k < CHUNK ==> mask_bit(mask, k) == is_digit_byte(#[trigger] bytes@[start + k]),
{
    let n = bytes.len();
    let mut mask: u16 = 0;
    let mut k: usize = 0;
    assert forall|j: int| 0 <= j < CHUNK implies !mask_bit(0u16, j) by {
        let s = j as u16;
        assert((0u16 >> s) & 1 == 0) by (bit_vector);
    }
    while k < CHUNK
        invariant
            k <= CHUNK,
            n == bytes@.len(),
            start + CHUNK <= n,
            forall|j: int|
                0 <= j < k ==> mask_bit(mask, j) == is_digit_byte(#[trigger] bytes@[start + j]),
            forall|j: int| k <= j < CHUNK ==> !mask_bit(mask, j),
        decreases CHUNK - k,
    {
        let b = bytes[start + k];
        if b >= 48 && b <= 57 {
            let ghost before = mask;
            let bit: u16 = 1u16 << (k as u16);
            mask = mask | bit;
            proof {
                let ks = k as u16;
                assert forall|j: int| 0 <= j < CHUNK implies mask_bit(mask, j) == (j == k
                    || mask_bit(before, j)) by {
                    let js = j as u16;
                    let set = (before | (1u16 << ks)) >> js;
                    let was = before >> js;
                    assert(js < 16 && ks < 16 && set == (before | (1u16 << ks)) >> js && was
                        == before >> js ==> (set & 1 == 1 <==> (js == ks || was & 1 == 1)))
                        by (bit_vector);
                }
            }
        }
        k += 1;
    }
    mask
}

/// Whether bit `k` of a chunk's classification is set.
fn has_bit(mask: u16, k: usize) -> (b: bool)
    requires
        k < CHUNK,
    ensures
        b == mask_bit(mask, k as int),
{
    (mask >> (k as u16)) & 1 == 1
}

/// Walks one classified chunk and appends to `out` the numbers of the runs that start in it.
/// Where a run starts is read off the classification; the run itself is read from the bytes, to
/// its end, also where that lies in a later chunk. A run that is under way at the start of the
/// chunk started earlier and is passed over.
fn scan_chunk(bytes: &[u8], start: usize, mask: u16, out: &mut Vec<u32>)
    requires
        start + CHUNK <= bytes@.len(),
        forall|k: int|
            0 <= k < CHUNK ==> mask_bit(mask, k) == is_digit_byte(#[trigger] bytes@[start + k]),
    ensures
        final(out)@ == old(out)@ + tokens_between(bytes@, start as int, start + CHUNK),
{
    let n = bytes.len();
    let mut k: usize = 0;
    if start > 0 && bytes[start - 1] >= 48 && bytes[start - 1] <= 57 {
        while k < CHUNK && has_bit(mask, k)
            invariant
                k <= CHUNK,
                0 < start,
                start + CHUNK <= n,
                n == bytes@.len(),
                forall|j: int|
                    0 <= j < CHUNK ==> mask_bit(mask, j) == is_digit_byte(
                        #[trigger] bytes@[start + j],
                    ),
                forall|p: int| start - 1 <= p < start + k ==> is_digit_byte(bytes@[p]),
            decreases CHUNK - k,
        {
            assert(is_digit_byte(bytes@[start + k]));
            k += 1;
        }
        proof {
            lemma_tokens_without_start(bytes@, start as int, start + k);
        }
    }
    while k < CHUNK
        invariant
            start + CHUNK <= n,
            start + k <= n,
            n == bytes@.len(),
            forall|j: int|
                0 <= j < CHUNK ==> mask_bit(mask, j) == is_digit_byte(#[trigger] bytes@[start + j]),
            k < CHUNK ==> between_runs(bytes@, start + k),
            k <= CHUNK ==> out@ == old(out)@ + tokens_between(bytes@, start as int, start + k),
            k > CHUNK ==> out@ == old(out)@ + tokens_between(
                bytes@,
                start as int,
                start + CHUNK,
            ),
        decreases n - start - k,
    {
        if has_bit(mask, k) {
            let pos = start + k;
            let (end, number) = read_run(bytes, pos);
            proof {
                let reach = if end <= start + CHUNK { end as int } else { start + CHUNK };
                assert forall|p: int| pos < p < end implies !starts_run(bytes@, p) by {
                    lemma_run_digits(bytes@, pos as int, p);
                }
                lemma_tokens_without_start(bytes@, pos + 1, reach);
                lemma_tokens_split(bytes@, start as int, pos + 1, reach);
                lemma_run_stops(bytes@, pos as int);
            }
            match number {
                Some(value) => out.push(value),
                None => {},
            }
            k = end - start;
        } else {
            k += 1;
        }
    }
}

/// The numbers in `bytes`, found chunk by chunk. A chunk is classified at once; one without a
/// digit is passed over in one step, one with a digit is walked by its classification. What is
/// left when no whole chunk remains is scanned byte by byte.
pub fn extract_numbers_batch(bytes: &[u8]) -> (numbers: Vec<u32>)
    ensures
        numbers@ == batch_tokens(bytes@),
        numbers@ == number_tokens(bytes@),
{
    let n = bytes.len();
    let mut numbers: Vec<u32> = Vec::new();
    let mut pos: usize = 0;
    let ghost mut chunks: nat = 0;
    while n - pos >= CHUNK
        invariant
            pos <= n,
            n == bytes@.len(),
            pos == chunks * CHUNK,
            numbers@ == chunk_tokens(bytes@, chunks),
        decreases n - pos,
    {
        let mask = digit_mask(bytes, pos);
        if mask == 0 {
            proof {
                assert forall|p: int| pos <= p < pos + CHUNK implies !starts_run(bytes@, p) by {
                    let k = p - pos;
                    let s = k as u16;
                    assert((0u16 >> s) & 1 == 0) by (bit_vector);
                    assert(!is_digit_byte(bytes@[pos + k]));
                }
                lemma_tokens_without_start(bytes@, pos as int, pos + CHUNK);
            }
        } else {
            scan_chunk(bytes, pos, mask, &mut numbers);
        }
        pos += CHUNK;
        proof {
            chunks = chunks + 1;
        }
    }
    scan_stretch(bytes, pos, n, &mut numbers);
    proof {
        lemma_batch_equals_scalar(bytes@);
    }
    numbers
}

/// The numbers in `bytes`, found the way that `strategy` names.
pub fn extract_numbers(strategy: ScanStrategy, bytes: &[u8]) -> (numbers: Vec<u32>)
    ensures
        numbers@ == strategy_tokens(strategy, bytes@),
        numbers@ == number_tokens(bytes@),
{
    match strategy {
        ScanStrategy::Batch => extract_numbers_batch(bytes),
        ScanStrategy::Scalar => extract_numbers_scalar(bytes),
    }
}

} // verus!
