//! First-fit, single-candidate match finder.
//!
//! The finder walks the search buffer once. It commits to the first place
//! where the first pending byte occurs, extends that one run as far as the
//! bytes agree, and gives up at the first mismatch: it never backtracks and
//! never compares several alignments.

use vstd::prelude::*;

verus! {

/// A reported match, over unbounded integers.
pub struct MatchSpan {
    /// How many leading pending bytes agreed with the run.
    pub length: nat,
    /// `write_offset + length - stop_index`.
    pub distance: nat,
    /// Position in the scanned slice at which the scan halted.
    pub stop_index: nat,
}

/// The part of the search buffer that a scan resuming at `cursor` looks at.
/// A cursor beyond the end leaves nothing to scan.
pub open spec fn scanned(search: Seq<u8>, cursor: nat) -> Seq<u8> {
    if cursor <= search.len() {
        search.skip(cursor as int)
    } else {
        Seq::empty()
    }
}

/// Index of the first byte of `s` equal to `b`; `s.len()` where there is none.
pub open spec fn first_occurrence(s: Seq<u8>, b: u8) -> nat
    decreases s.len(),
{
    if s.len() == 0 || s[0] == b {
        0
    } else {
        1 + first_occurrence(s.drop_first(), b)
    }
}

/// Length of the longest common prefix of `a` and `b`.
pub open spec fn common_prefix_len(a: Seq<u8>, b: Seq<u8>) -> nat
    decreases a.len(),
{
    if a.len() == 0 || b.len() == 0 || a[0] != b[0] {
        0
    } else {
        1 + common_prefix_len(a.drop_first(), b.drop_first())
    }
}

/// Where in the scanned slice the candidate run begins: at the first
/// occurrence of the first pending byte.
pub open spec fn run_start(s: Seq<u8>, pending: Seq<u8>) -> nat {
    if pending.len() == 0 {
        0
    } else {
        first_occurrence(s, pending[0])
    }
}

/// How many pending bytes the candidate run covers.
pub open spec fn run_length(s: Seq<u8>, pending: Seq<u8>) -> nat {
    common_prefix_len(s.skip(run_start(s, pending) as int), pending)
}

/// Where the scan halts: on the byte after the run, or on the last byte of
/// the slice when the run reaches the end of it.
pub open spec fn scan_stop(s: Seq<u8>, pending: Seq<u8>) -> nat {
    let after = run_start(s, pending) + run_length(s, pending);
    if after < s.len() {
        after
    } else {
        (s.len() - 1) as nat
    }
}

/// What the finder reports for a search buffer, the pending bytes, the write
/// offset and the cursor at which the scan resumes.
///
/// Nothing is reported when no pending byte matched, or when the run would
/// begin beyond the data already written (`write_offset + length <= stop`).
pub open spec fn find_match(
    search: Seq<u8>,
    pending: Seq<u8>,
    write_offset: nat,
    cursor: nat,
) -> Option<MatchSpan> {
    let s = scanned(search, cursor);
    let length = run_length(s, pending);
    let stop = scan_stop(s, pending);
    if length != 0 && write_offset + length > stop {
        Some(
            MatchSpan {
                length,
                distance: (write_offset + length - stop) as nat,
                stop_index: stop,
            },
        )
    } else {
        None
    }
}

/// The model of a result of `find_repeat_element`.
pub open spec fn span_of(coords: Option<(usize, usize, usize)>) -> Option<MatchSpan> {
    match coords {
        Some((length, distance, stop_index)) => Some(
            MatchSpan {
                length: length as nat,
                distance: distance as nat,
                stop_index: stop_index as nat,
            },
        ),
        None => None,
    }
}

/// `first_occurrence` is the one index below which no byte equals `b` and at
/// which, unless it is the end of `s`, the byte equals `b`.
pub proof fn lemma_first_occurrence_unique(s: Seq<u8>, b: u8, j: nat)
    requires
        j <= s.len(),
        forall|k: int| 0 <= k < j ==> s[k] != b,
        j < s.len() ==> s[j as int] == b,
    ensures
        first_occurrence(s, b) == j,
    decreases s.len(),
{
    if s.len() != 0 && s[0] != b {
        let t = s.drop_first();
        assert forall|k: int| 0 <= k < j - 1 implies t[k] != b by {
            assert(t[k] == s[k + 1]);
        }
        lemma_first_occurrence_unique(t, b, (j - 1) as nat);
    }
}

/// `common_prefix_len` is the one length up to which `a` and `b` agree and at
/// which they differ or one of them ends.
pub proof fn lemma_common_prefix_unique(a: Seq<u8>, b: Seq<u8>, n: nat)
    requires
        n <= a.len(),
        n <= b.len(),
        forall|k: int| 0 <= k < n ==> a[k] == b[k],
        n == a.len() || n == b.len() || a[n as int] != b[n as int],
    ensures
        common_prefix_len(a, b) == n,
    decreases a.len(),
{
    if n != 0 {
        let ta = a.drop_first();
        let tb = b.drop_first();
        assert(a[0] == b[0]);
        assert forall|k: int| 0 <= k < n - 1 implies ta[k] == tb[k] by {
            assert(ta[k] == a[k + 1]);
            assert(tb[k] == b[k + 1]);
        }
        lemma_common_prefix_unique(ta, tb, (n - 1) as nat);
    }
}

/// A run never begins past the end of the scanned slice and never runs
/// beyond it, nor beyond the pending bytes.
pub proof fn lemma_run_bounds(s: Seq<u8>, pending: Seq<u8>)
    ensures
        run_start(s, pending) <= s.len(),
        run_start(s, pending) + run_length(s, pending) <= s.len(),
        run_length(s, pending) <= pending.len(),
{
    if pending.len() != 0 {
        lemma_first_occurrence_bound(s, pending[0]);
    }
    let start = run_start(s, pending);
    lemma_common_prefix_bound(s.skip(start as int), pending);
}

proof fn lemma_first_occurrence_bound(s: Seq<u8>, b: u8)
    ensures
        first_occurrence(s, b) <= s.len(),
    decreases s.len(),
{
    if s.len() != 0 && s[0] != b {
        lemma_first_occurrence_bound(s.drop_first(), b);
    }
}

proof fn lemma_common_prefix_bound(a: Seq<u8>, b: Seq<u8>)
    ensures
        common_prefix_len(a, b) <= a.len(),
        common_prefix_len(a, b) <= b.len(),
    decreases a.len(),
{
    if a.len() != 0 && b.len() != 0 && a[0] == b[0] {
        lemma_common_prefix_bound(a.drop_first(), b.drop_first());
    }
}

/// A reported match covers at least one and at most all pending bytes, stops
/// inside the scanned slice, and lies at most one byte further back than the
/// write offset.
pub proof fn lemma_find_match_bounds(
    search: Seq<u8>,
    pending: Seq<u8>,
    write_offset: nat,
    cursor: nat,
)
    ensures
        find_match(search, pending, write_offset, cursor) matches Some(m) ==> {
            &&& 1 <= m.length <= pending.len()
            &&& m.stop_index < scanned(search, cursor).len()
            &&& 1 <= m.distance <= write_offset + 1
            &&& m.distance == write_offset + m.length - m.stop_index
        },
{
    lemma_run_bounds(scanned(search, cursor), pending);
}

/// Finds the run of leading bytes of `data` (the pending bytes) that recurs
/// in `search_buf` from `search_offset` on, by one first-fit scan.
///
/// Returns the run's length, its distance measured back from `data_offset`,
/// and the position, counted from `search_offset`, at which the scan halted.
/// The distance can be `data_offset + 1`, which has to fit in `usize`.
pub fn find_repeat_element(
    search_buf: &[u8],
    data: &[u8],
    data_offset: usize,
    search_offset: usize,
) -> (coords: Option<(usize, usize, usize)>)
    requires
        data_offset < usize::MAX,
    ensures
        span_of(coords) == find_match(
            search_buf@,
            data@,
            data_offset as nat,
            search_offset as nat,
        ),
{
    let ghost s = scanned(search_buf@, search_offset as nat);
    let ghost p = data@;
    let n: usize = if search_offset <= search_buf.len() {
        search_buf.len() - search_offset
    } else {
        0
    };
    let mut length: usize = 0;
    let mut last_idx: usize = 0;
    let mut is_prev_match = false;
    let mut i: usize = 0;
    while i < n
        invariant_except_break
            i == 0 ==> last_idx == 0,
            i > 0 ==> last_idx == i - 1,
        invariant
            n == s.len(),
            p == data@,
            s == scanned(search_buf@, search_offset as nat),
            n > 0 ==> search_offset + n == search_buf.len(),
            i <= n,
            length <= i,
            length <= p.len(),
            !is_prev_match ==> length == 0,
            is_prev_match ==> length >= 1,
            p.len() > 0 ==> forall|k: int| 0 <= k < i - length ==> s[k] != p[0],
            forall|k: int| 0 <= k < length ==> s[i - length + k] == p[k],
        ensures
            (i == n && (n == 0 ==> last_idx == 0) && (n > 0 ==> last_idx == n - 1)) || (i < n
                && last_idx == i && (p.len() <= length || (is_prev_match && s[i as int]
                != p[length as int]))),
        decreases n - i,
    {
        last_idx = i;
        if data.len() <= length {
            break ;
        }
        assert(s[i as int] == search_buf@[search_offset + i]);
        if data[length] == search_buf[search_offset + i] {
            is_prev_match = true;
            length += 1;
        } else {
            if is_prev_match {
                break ;
            }
            length = 0;
        }
        i += 1;
    }
    proof {
        if p.len() > 0 {
            let start = (i - length) as nat;
            if length == 0 && i < n {
                // Halted on the first byte without entering a run: only an
                // exhausted pending buffer does that, and it is not empty.
                assert(false);
            }
            lemma_first_occurrence_unique(s, p[0], start);
            let tail = s.skip(start as int);
            assert forall|k: int| 0 <= k < length implies tail[k] == p[k] by {
                assert(tail[k] == s[start + k]);
            }
            lemma_common_prefix_unique(tail, p, length as nat);
        } else {
            lemma_common_prefix_unique(s.skip(0), p, 0);
        }
        assert(run_length(s, p) == length);
        assert(length != 0 ==> scan_stop(s, p) == last_idx);
    }
    if length != 0 {
        let gap: usize = last_idx + 1 - length;
        if data_offset >= gap {
            return Some((length, data_offset - gap + 1, last_idx));
        }
    }
    None
}

} // verus!
