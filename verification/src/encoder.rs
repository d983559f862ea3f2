//! The encoder pipeline.
//!
//! The first bytes of the input, the seed, are copied to the output as they
//! are. Every later byte joins the search buffer and the pending bytes, and
//! the match finder is asked once per byte. A match that is long and far
//! enough is written as a token and empties the pending bytes; a shorter or
//! closer match is only remembered; without a match the byte is written as a
//! literal. Both buffers grow with the input: memory use is linear in the
//! input size, and nothing is ever evicted.

use crate::error::{outcome, EncodeError};
use crate::matcher::{find_match, find_repeat_element, MatchSpan};
use crate::token::{encode_token, to_code};
use vstd::prelude::*;

verus! {

/// Number of leading input bytes that `find_repeat_elements` copies verbatim.
pub const SEED_LEN: usize = 5;

/// A match becomes a token only if it is longer than this.
pub const LENGTH_THRESHOLD: usize = 3;

/// A match becomes a token only if it lies further back than this.
pub const DISTANCE_THRESHOLD: usize = 3;

/// What the pipeline carries from one input byte to the next.
pub struct ScanState {
    /// The output written so far.
    pub emitted: Seq<u8>,
    /// The bytes read since the last token.
    pub pending: Seq<u8>,
    /// Where the next scan of the search buffer resumes.
    pub cursor: nat,
    /// Whether the previous byte ended in a match.
    pub continuing: bool,
}

/// The state after the seed: the first `seed_len` bytes are written, nothing
/// is pending and no match is being continued.
pub open spec fn seeded(data: Seq<u8>, seed_len: nat) -> ScanState {
    ScanState {
        emitted: data.take(seed_len as int),
        pending: Seq::empty(),
        cursor: 0,
        continuing: false,
    }
}

/// Whether a match is long and far enough to be written as a token.
pub open spec fn qualifies(m: MatchSpan) -> bool {
    m.length > LENGTH_THRESHOLD && m.distance > DISTANCE_THRESHOLD
}

/// The state after the byte at `offset` has been read.
///
/// The search buffer is the input up to and including that byte. A match
/// keeps or moves the cursor and marks the state as continuing; the
/// thresholds decide only whether a token is written. Without a match the
/// byte is written as a literal and the cursor returns to the start.
pub open spec fn step(st: ScanState, data: Seq<u8>, offset: nat) -> Result<ScanState, EncodeError>
    recommends
        offset < data.len(),
{
    let byte = data[offset as int];
    let pending = st.pending.push(byte);
    match find_match(data.take(offset as int + 1), pending, offset, st.cursor) {
        Some(m) => {
            let cursor = if st.continuing {
                m.stop_index
            } else {
                st.cursor
            };
            if qualifies(m) {
                match encode_token(m.length, m.distance) {
                    Ok(token) => Ok(
                        ScanState {
                            emitted: st.emitted + token,
                            pending: Seq::empty(),
                            cursor,
                            continuing: true,
                        },
                    ),
                    Err(e) => Err(e),
                }
            } else {
                Ok(ScanState { emitted: st.emitted, pending, cursor, continuing: true })
            }
        },
        None => Ok(
            ScanState { emitted: st.emitted.push(byte), pending, cursor: 0, continuing: false },
        ),
    }
}

/// The state after the first `upto` input bytes, or the failure met on the
/// way.
pub open spec fn scan(data: Seq<u8>, seed_len: nat, upto: nat) -> Result<ScanState, EncodeError>
    recommends
        seed_len <= upto <= data.len(),
    decreases upto,
{
    if upto <= seed_len {
        Ok(seeded(data, seed_len))
    } else {
        match scan(data, seed_len, (upto - 1) as nat) {
            Ok(st) => step(st, data, (upto - 1) as nat),
            Err(e) => Err(e),
        }
    }
}

/// What encoding `data` with a seed of `seed_len` bytes gives: the output, or
/// why there is none.
pub open spec fn encoded(data: Seq<u8>, seed_len: nat) -> Result<Seq<u8>, EncodeError> {
    if data.len() < seed_len {
        Err(EncodeError::InputTooShort)
    } else {
        match scan(data, seed_len, data.len()) {
            Ok(st) => Ok(st.emitted),
            Err(e) => Err(e),
        }
    }
}

/// A failure stays: once the scan has failed, reading on changes nothing.
pub proof fn lemma_scan_failure_stays(data: Seq<u8>, seed_len: nat, at: nat, upto: nat)
    requires
        at <= upto,
        scan(data, seed_len, at) is Err,
    ensures
        scan(data, seed_len, upto) == scan(data, seed_len, at),
    decreases upto,
{
    if at < upto {
        lemma_scan_failure_stays(data, seed_len, at, (upto - 1) as nat);
    }
}

/// An input that is exactly as long as the seed is its own encoding.
pub proof fn lemma_seed_only_is_unchanged(data: Seq<u8>, seed_len: nat)
    requires
        data.len() == seed_len,
    ensures
        encoded(data, seed_len) == Ok::<Seq<u8>, EncodeError>(data),
{
    assert(data.take(seed_len as int) == data);
}

/// Encoding is deterministic: two results that `encode` may return for one
/// input and one seed length hold the same bytes, or the same failure.
pub proof fn lemma_encode_is_deterministic(
    data: Seq<u8>,
    seed_len: nat,
    first: Result<Vec<u8>, EncodeError>,
    second: Result<Vec<u8>, EncodeError>,
)
    requires
        outcome(first) == encoded(data, seed_len),
        outcome(second) == encoded(data, seed_len),
    ensures
        outcome(first) == outcome(second),
        first matches Ok(a) ==> second matches Ok(b) && a@ == b@,
        first matches Err(e) ==> second == Err::<Vec<u8>, EncodeError>(e),
{
}

/// Every output begins with the seed: the first `seed_len` input bytes.
pub proof fn lemma_output_starts_with_seed(data: Seq<u8>, seed_len: nat, upto: nat)
    requires
        seed_len <= data.len(),
    ensures
        scan(data, seed_len, upto) matches Ok(st) ==> st.emitted.len() >= seed_len
            && st.emitted.take(seed_len as int) == data.take(seed_len as int),
    decreases upto,
{
    if upto > seed_len {
        lemma_output_starts_with_seed(data, seed_len, (upto - 1) as nat);
        if let Ok(prev) = scan(data, seed_len, (upto - 1) as nat) {
            if let Ok(st) = step(prev, data, (upto - 1) as nat) {
                assert(st.emitted.take(seed_len as int) == prev.emitted.take(seed_len as int));
            }
        }
    } else {
        assert(data.take(seed_len as int).take(seed_len as int) == data.take(seed_len as int));
    }
}

/// An encoder with its seed length.
pub struct Encoder {
    /// Number of leading input bytes that are copied verbatim before any
    /// match is attempted.
    pub seed_len: usize,
}

impl Encoder {
    /// An encoder that copies the first `seed_len` bytes verbatim.
    pub fn new(seed_len: usize) -> (encoder: Self)
        ensures
            encoder.seed_len == seed_len,
    {
        Encoder { seed_len }
    }

    /// Encodes `data` in one pass.
    ///
    /// An input shorter than the seed is refused, and so is an input on which
    /// a token's length or distance reaches the width limit.
    pub fn encode(&self, data: &[u8]) -> (r: Result<Vec<u8>, EncodeError>)
        ensures
            outcome(r) == encoded(data@, self.seed_len as nat),
    {
        let seed = self.seed_len;
        if data.len() < seed {
            return Err(EncodeError::InputTooShort);
        }
        let mut search_buf: Vec<u8> = Vec::new();
        let mut out: Vec<u8> = Vec::new();
        let mut k: usize = 0;
        while k < seed
            invariant
                k <= seed <= data.len(),
                search_buf@ == data@.take(k as int),
                out@ == data@.take(k as int),
            decreases seed - k,
        {
            search_buf.push(data[k]);
            out.push(data[k]);
            k = k + 1;
        }
        let mut current_buf: Vec<u8> = Vec::new();
        let mut search_cursor: usize = 0;
        let mut is_prev_match = false;
        let mut offset: usize = seed;
        while offset < data.len()
            invariant
                seed == self.seed_len,
                seed <= offset <= data.len(),
                search_buf@ == data@.take(offset as int),
                scan(data@, seed as nat, offset as nat) == Ok::<ScanState, EncodeError>(
                    ScanState {
                        emitted: out@,
                        pending: current_buf@,
                        cursor: search_cursor as nat,
                        continuing: is_prev_match,
                    },
                ),
            decreases data.len() - offset,
        {
            let byte = data[offset];
            search_buf.push(byte);
            current_buf.push(byte);
            assert(search_buf@ == data@.take(offset + 1));
            match find_repeat_element(
                search_buf.as_slice(),
                current_buf.as_slice(),
                offset,
                search_cursor,
            ) {
                Some((length, distance, stop_index)) => {
                    if length > LENGTH_THRESHOLD && distance > DISTANCE_THRESHOLD {
                        match to_code(length, distance) {
                            Ok(mut token) => {
                                out.append(&mut token);
                                current_buf.clear();
                            },
                            Err(e) => {
                                proof {
                                    assert(scan(data@, seed as nat, (offset + 1) as nat) == Err::<
                                        ScanState,
                                        EncodeError,
                                    >(e));
                                    lemma_scan_failure_stays(
                                        data@,
                                        seed as nat,
                                        (offset + 1) as nat,
                                        data@.len(),
                                    );
                                }
                                return Err(e);
                            },
                        }
                    }
                    if is_prev_match {
                        search_cursor = stop_index;
                    }
                    is_prev_match = true;
                },
                None => {
                    search_cursor = 0;
                    is_prev_match = false;
                    out.push(byte);
                },
            }
            offset = offset + 1;
        }
        Ok(out)
    }
}

impl Default for Encoder {
    /// The encoder with the seed length `SEED_LEN`.
    fn default() -> (encoder: Self)
        ensures
            encoder.seed_len == SEED_LEN,
    {
        Encoder { seed_len: SEED_LEN }
    }
}

/// Encodes `data` with the default seed of `SEED_LEN` bytes: replaces
/// qualifying repeats by length/distance tokens and copies every other
/// emitted byte verbatim.
pub fn find_repeat_elements(data: &[u8]) -> (r: Result<Vec<u8>, EncodeError>)
    ensures
        outcome(r) == encoded(data@, SEED_LEN as nat),
{
    Encoder::new(SEED_LEN).encode(data)
}

} // verus!
