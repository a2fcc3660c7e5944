//! The cyclic balance scanner.

use vstd::prelude::*;

use crate::balance::{
    close_bracket, is_balanced, is_close_bracket, is_neutral, is_open_bracket,
    lemma_balanced_concat, lemma_balanced_drop_neutral, lemma_balanced_empty,
    lemma_balanced_neutral, lemma_balanced_not_end_open, lemma_balanced_wrap,
    lemma_run_stack_append, lemma_run_stack_bottom_split, lemma_run_stack_frame,
    lemma_run_stack_single, matching_open, open_bracket, opening_of, run_stack,
};
use vstd::string::{StrSliceExecFns, StringExecFns};

verus! {

/// Length of the longest correctly bracketed run of `d` that ends exactly at
/// position `i`, inclusive; zero when no such run ends there. Out-of-range
/// positions carry an empty run. A neutral character extends the run ending
/// just before it; an opening bracket ends no run; a closing bracket that
/// matches the opening bracket standing right before the run ending at `i-1`
/// closes that run and joins it to the run ending just before the opening
/// bracket.
pub open spec fn dp(d: Seq<char>, i: int) -> nat
    decreases i + 1,
{
    if i < 0 || i >= d.len() {
        0
    } else if is_neutral(d[i]) {
        dp(d, i - 1) + 1
    } else if is_open_bracket(d[i]) {
        0
    } else {
        let pn = dp(d, i - 1);
        if i - 1 < pn {
            0
        } else {
            let j = i - 1 - pn;
            if d[j] == matching_open(d[i]) {
                2 + pn + dp(d, j - 1)
            } else {
                0
            }
        }
    }
}

/// A run ending at `i` fits inside the prefix of `d` that ends at `i`.
pub proof fn lemma_dp_le(d: Seq<char>, i: int)
    requires
        -1 <= i,
    ensures
        dp(d, i) <= i + 1,
    decreases i + 1,
{
    if 0 <= i < d.len() {
        lemma_dp_le(d, i - 1);
        if is_close_bracket(d[i]) {
            let pn = dp(d, i - 1);
            if i - 1 >= pn {
                let j = i - 1 - pn;
                if d[j] == matching_open(d[i]) {
                    lemma_dp_le(d, j - 1);
                }
            }
        }
    }
}

/// The run of length `dp(d, i)` ending at position `i`, as a subrange of `d`.
pub open spec fn window(d: Seq<char>, i: int) -> Seq<char> {
    d.subrange(i + 1 - dp(d, i), i + 1)
}

/// Every run the table records is a correctly bracketed sequence.
pub proof fn lemma_dp_window_balanced(d: Seq<char>, i: int)
    requires
        -1 <= i < d.len(),
    ensures
        is_balanced(window(d, i)),
    decreases i + 1,
{
    lemma_dp_le(d, i);
    if i == -1 || dp(d, i) == 0 {
        assert(window(d, i) =~= Seq::<char>::empty());
        lemma_balanced_empty();
    } else if is_neutral(d[i]) {
        lemma_dp_le(d, i - 1);
        lemma_dp_window_balanced(d, i - 1);
        lemma_balanced_neutral(d[i]);
        lemma_balanced_concat(window(d, i - 1), seq![d[i]]);
        assert(window(d, i) =~= window(d, i - 1) + seq![d[i]]);
    } else {
        // a matched closing bracket: every other shape gives a run of length 0
        assert(is_close_bracket(d[i]));
        let pn = dp(d, i - 1);
        assert(i - 1 >= pn);
        let j = i - 1 - pn;
        assert(d[j] == matching_open(d[i]));
        let m = dp(d, j - 1);
        assert(dp(d, i) == 2 + pn + m);
        lemma_dp_le(d, i - 1);
        lemma_dp_le(d, j - 1);
        lemma_dp_window_balanced(d, i - 1);
        lemma_dp_window_balanced(d, j - 1);
        lemma_balanced_wrap(window(d, i - 1), d[j], d[i]);
        lemma_balanced_concat(window(d, j - 1), seq![d[j]] + window(d, i - 1) + seq![d[i]]);
        assert(window(d, i) =~= window(d, j - 1) + (seq![d[j]] + window(d, i - 1) + seq![d[i]]));
    }
}

/// Completeness of the run-length table: every correctly bracketed subrange
/// of `d` ends inside the run that the table records at its last position,
/// so none is longer than the table says.
pub proof fn lemma_dp_complete(d: Seq<char>, a: int, b: int)
    requires
        0 <= a <= b <= d.len(),
        is_balanced(d.subrange(a, b)),
    ensures
        b - a <= dp(d, b - 1),
    decreases b - a,
{
    let e = Seq::<char>::empty();
    if a < b {
        let t = d.subrange(a, b);
        let c = d[b - 1];
        assert(t.last() == c);
        lemma_balanced_not_end_open(t);
        if is_neutral(c) {
            lemma_balanced_drop_neutral(t);
            assert(t.drop_last() =~= d.subrange(a, b - 1));
            lemma_dp_complete(d, a, b - 1);
            assert(dp(d, b - 1) == dp(d, b - 2) + 1);
        } else {
            assert(is_close_bracket(c));
            let w = t.drop_last();
            assert(t =~= w + seq![c]);
            lemma_run_stack_append(w, seq![c], e);
            assert(run_stack(w, e) is Some);
            let st0 = run_stack(w, e).unwrap();
            lemma_run_stack_single(c, st0);
            // the final pop leaves the empty stack, so just before it the
            // stack held exactly the matching opening bracket
            assert(st0.len() >= 1 && st0.last() == matching_open(c) && st0.drop_last() == e);
            assert(st0.len() == 1);
            assert(st0[0] == matching_open(c));
            let q = lemma_run_stack_bottom_split(w, st0);
            let qa = a + q;
            assert(w[q] == d[qa]);
            assert(d[qa] == matching_open(c));
            assert(w.subrange(0, q) =~= d.subrange(a, qa));
            let inner = w.subrange(q + 1, w.len() as int);
            assert(st0.drop_first() =~= e);
            assert(is_balanced(inner));
            assert(inner =~= d.subrange(qa + 1, b - 1));
            lemma_dp_complete(d, qa + 1, b - 1);
            let pn = dp(d, b - 2);
            assert(pn >= b - 2 - qa);
            lemma_dp_le(d, b - 2);
            lemma_dp_window_balanced(d, b - 2);
            if pn > b - 2 - qa {
                // the run ending just before the final closing bracket would
                // then reach left past the opening bracket at `qa`, yet a run
                // through an unmatched opening bracket cannot end balanced
                let v = window(d, b - 2);
                let v1 = d.subrange(b - 1 - pn, qa + 1);
                let v2 = d.subrange(qa + 1, b - 1);
                assert(v =~= v1 + v2);
                lemma_run_stack_append(v1, v2, e);
                assert(run_stack(v, e) == Some(e));
                assert(run_stack(v1, e) is Some);
                let stv = run_stack(v1, e).unwrap();
                assert(v1.len() >= 1 && v1.last() == d[qa]);
                assert(v1 =~= v1.drop_last() + seq![d[qa]]);
                lemma_run_stack_append(v1.drop_last(), seq![d[qa]], e);
                assert(run_stack(v1.drop_last(), e) is Some);
                let stw = run_stack(v1.drop_last(), e).unwrap();
                lemma_run_stack_single(d[qa], stw);
                assert(stv == stw.push(d[qa]));
                assert(stv.len() >= 1);
                assert(v2 == inner && is_balanced(v2));
                lemma_run_stack_frame(v2, stv, e, e);
                assert(stv + e =~= stv);
                assert(run_stack(v2, stv) == Some(stv));
                assert(false);
            }
            assert(pn == b - 2 - qa);
            lemma_dp_complete(d, a, qa);
            assert(dp(d, b - 1) == 2 + pn + dp(d, qa - 1));
        }
    }
}

/// The position of the greatest value of `nums`, the first such position
/// when several carry the greatest value — among tied candidates the one
/// found earliest in scan order wins; zero on an empty sequence.
pub open spec fn best_idx(nums: Seq<nat>) -> int
    decreases nums.len(),
{
    if nums.len() <= 1 {
        0
    } else {
        let b = best_idx(nums.drop_last());
        if nums.last() > nums[b] {
            nums.len() - 1
        } else {
            b
        }
    }
}

pub proof fn lemma_best_idx_in_range(nums: Seq<nat>)
    requires
        nums.len() > 0,
    ensures
        0 <= best_idx(nums) < nums.len(),
    decreases nums.len(),
{
    if nums.len() > 1 {
        lemma_best_idx_in_range(nums.drop_last());
    }
}

/// No value of `nums` exceeds the one at `best_idx`.
pub proof fn lemma_best_idx_is_max(nums: Seq<nat>, k: int)
    requires
        0 <= k < nums.len(),
    ensures
        nums[k] <= nums[best_idx(nums)],
    decreases nums.len(),
{
    lemma_best_idx_in_range(nums);
    if nums.len() > 1 {
        let prefix = nums.drop_last();
        lemma_best_idx_in_range(prefix);
        if k < nums.len() - 1 {
            lemma_best_idx_is_max(prefix, k);
        } else if best_idx(nums) != k {
            lemma_best_idx_is_max(prefix, best_idx(nums));
        }
    }
}

/// Before `best_idx`, every value of `nums` is strictly smaller.
pub proof fn lemma_best_idx_is_first(nums: Seq<nat>, k: int)
    requires
        0 <= k < best_idx(nums),
    ensures
        nums[k] < nums[best_idx(nums)],
    decreases nums.len(),
{
    let prefix = nums.drop_last();
    lemma_best_idx_in_range(nums);
    if nums.len() > 1 {
        lemma_best_idx_in_range(prefix);
        if best_idx(nums) == nums.len() - 1 {
            lemma_best_idx_is_max(prefix, k);
        } else {
            lemma_best_idx_is_first(prefix, k);
        }
    }
}

/// A position that carries the greatest value, with every earlier position
/// strictly below it, is `best_idx`.
pub proof fn lemma_best_idx_unique(nums: Seq<nat>, i: int)
    requires
        0 <= i < nums.len(),
        forall|k: int| 0 <= k < nums.len() ==> nums[k] <= nums[i],
        forall|k: int| 0 <= k < i ==> nums[k] < nums[i],
    ensures
        i == best_idx(nums),
{
    let b = best_idx(nums);
    lemma_best_idx_in_range(nums);
    lemma_best_idx_is_max(nums, i);
    if i < b {
        lemma_best_idx_is_first(nums, i);
    }
}

/// The table of run lengths over the whole of `d`.
pub open spec fn dp_values(d: Seq<char>) -> Seq<nat> {
    Seq::new(d.len(), |i: int| dp(d, i))
}

/// The outcome of the scan over the characters of the input alone: `Some(t)`
/// when the longest correctly bracketed run of the doubled input, read as a
/// cyclic run of the input, is the literal substring `t`; `None` when that
/// run is at least one full cycle long, so the balanced pattern repeats
/// without bound. Among runs tied for the greatest length the one found
/// first in scan order is kept: `best_idx` takes the earliest position.
pub open spec fn scan_outcome(s: Seq<char>) -> Option<Seq<char>> {
    let d = s + s;
    if d.len() == 0 {
        None
    } else {
        let i = best_idx(dp_values(d));
        let m = dp(d, i);
        if m < s.len() {
            Some(d.subrange(i + 1 - m, i + 1))
        } else {
            None
        }
    }
}

/// The marker text the scanner returns in place of a literal substring when
/// the balanced run is unbounded.
pub open spec fn unbounded_marker() -> Seq<char> {
    "Infinite"@
}

/// The text the scanner returns: the longest correctly bracketed cyclic
/// substring, or the unbounded marker.
pub open spec fn scan_result(s: Seq<char>) -> Seq<char> {
    match scan_outcome(s) {
        Some(t) => t,
        None => unbounded_marker(),
    }
}

/// The scanner is a pure function: its outcome is determined by the input
/// alone, so re-running it on the same input yields the same result.
pub proof fn lemma_scan_deterministic(s1: Seq<char>, s2: Seq<char>)
    requires
        s1 == s2,
    ensures
        scan_result(s1) == scan_result(s2),
        scan_outcome(s1) == scan_outcome(s2),
{
}

/// When the scan yields a literal substring, that substring is strictly
/// shorter than the input and is correctly bracketed: read with its neutral
/// characters ignored, it is a fully matched nesting of the three bracket
/// kinds, with no unmatched opening or closing bracket.
pub proof fn lemma_scan_outcome_substring(s: Seq<char>, t: Seq<char>)
    requires
        scan_outcome(s) == Some(t),
    ensures
        t.len() < s.len(),
        is_balanced(t),
{
    let d = s + s;
    assert(d.len() == 2 * s.len());
    let i = best_idx(dp_values(d));
    lemma_best_idx_in_range(dp_values(d));
    let m = dp(d, i);
    lemma_dp_le(d, i);
    lemma_dp_window_balanced(d, i);
    assert(t == window(d, i));
}

/// The literal substring is a genuine cyclic substring of the input: it
/// reads the input from some start position onward, wrapping from the end of
/// the input back to its beginning at most once.
pub proof fn lemma_scan_outcome_cyclic(s: Seq<char>, t: Seq<char>) -> (start: int)
    requires
        scan_outcome(s) == Some(t),
    ensures
        0 <= start < s.len(),
        forall|k: int|
            0 <= k < t.len() ==> t[k] == (if start + k < s.len() {
                s[start + k]
            } else {
                s[start + k - s.len()]
            }),
{
    let d = s + s;
    let n = s.len() as int;
    let i = best_idx(dp_values(d));
    lemma_best_idx_in_range(dp_values(d));
    let m = dp(d, i);
    lemma_dp_le(d, i);
    let a = i + 1 - m;
    assert(t == d.subrange(a, i + 1));
    if a < n {
        a
    } else if a - n < n {
        a - n
    } else {
        // the best run is empty and begins right after the doubled input
        assert(t.len() == 0);
        0
    }
}

/// The literal substring the scan yields is the longest: no correctly
/// bracketed subrange of the doubled input exceeds its length.
pub proof fn lemma_scan_outcome_maximal(s: Seq<char>, t: Seq<char>, a: int, b: int)
    requires
        scan_outcome(s) == Some(t),
        0 <= a <= b <= (s + s).len(),
        is_balanced((s + s).subrange(a, b)),
    ensures
        b - a <= t.len(),
{
    let d = s + s;
    if a < b {
        lemma_dp_complete(d, a, b);
        let i = best_idx(dp_values(d));
        lemma_best_idx_in_range(dp_values(d));
        lemma_best_idx_is_max(dp_values(d), b - 1);
        lemma_dp_le(d, i);
        assert(dp_values(d)[b - 1] == dp(d, b - 1));
        assert(t.len() == dp(d, i));
    }
}

/// When the scan reports the unbounded marker on a nonempty input, the
/// doubled input really holds a correctly bracketed run at least one full
/// cycle long; the positions returned bound such a run.
pub proof fn lemma_unbounded_witness(s: Seq<char>) -> (r: (int, int))
    requires
        scan_outcome(s) is None,
        s.len() > 0,
    ensures
        0 <= r.0 <= r.1 <= (s + s).len(),
        r.1 - r.0 >= s.len(),
        is_balanced((s + s).subrange(r.0, r.1)),
{
    let d = s + s;
    let i = best_idx(dp_values(d));
    lemma_best_idx_in_range(dp_values(d));
    lemma_dp_le(d, i);
    lemma_dp_window_balanced(d, i);
    assert(dp(d, i) >= s.len());
    (i + 1 - dp(d, i), i + 1)
}

/// Unbounded detection is saturating: an empty input, and an input with no
/// brackets at all, always yield the unbounded marker.
pub proof fn lemma_unbounded_saturating(s: Seq<char>)
    requires
        s.len() == 0 || (forall|k: int| 0 <= k < s.len() ==> is_neutral(#[trigger] s[k])),
    ensures
        scan_outcome(s) is None,
{
    let d = s + s;
    if s.len() > 0 {
        assert(forall|k: int| 0 <= k < d.len() ==> is_neutral(#[trigger] d[k]));
        let last = d.len() - 1;
        lemma_dp_all_neutral(d, last);
        let i = best_idx(dp_values(d));
        lemma_best_idx_in_range(dp_values(d));
        lemma_best_idx_is_max(dp_values(d), last);
        assert(dp_values(d)[last] == d.len());
        lemma_dp_le(d, i);
        assert(dp(d, i) == d.len());
    }
}

/// Over a stretch of neutral characters the run lengths grow one by one.
proof fn lemma_dp_all_neutral(d: Seq<char>, i: int)
    requires
        -1 <= i < d.len(),
        forall|k: int| 0 <= k <= i ==> is_neutral(#[trigger] d[k]),
    ensures
        dp(d, i) == i + 1,
    decreases i + 1,
{
    if i >= 0 {
        lemma_dp_all_neutral(d, i - 1);
    }
}

/// Every character of the input is a single code unit: each scalar value
/// fits in one byte, so character count equals byte count.
pub open spec fn all_single_unit(s: Seq<char>) -> bool {
    vstd::utf8::is_ascii_chars(s)
}

/// The scanner's only failure: the input held a character wider than one
/// code unit. The offending input is carried in the error.
#[derive(Debug)]
pub enum ScanError {
    InvalidInput(String),
}

impl ScanError {
    /// A diagnostic line that names the offending input.
    pub fn message(&self) -> (m: String)
        ensures
            self matches ScanError::InvalidInput(input) ==> m@
                == "Input string should contain 1-byte symbols only. Got: "@ + input@,
    {
        match self {
            ScanError::InvalidInput(input) => {
                let mut m = "Input string should contain 1-byte symbols only. Got: ".to_owned();
                m.append(input.as_str());
                m
            },
        }
    }
}

/// The greatest value of `values` and the last position that carries it;
/// `None` on an empty slice.
pub fn get_idx_and_max(values: &[usize]) -> (r: Option<(usize, usize)>)
    ensures
        r is None <==> values@.len() == 0,
        r matches Some(p) ==> {
            &&& 0 <= p.0 < values@.len()
            &&& values@[p.0 as int] == p.1
            &&& forall|k: int| 0 <= k < values@.len() ==> values@[k] <= p.1
            &&& forall|k: int| p.0 < k < values@.len() ==> values@[k] < p.1
        },
{
    if values.len() == 0 {
        return None;
    }
    let mut best: usize = 0;
    let mut i: usize = 1;
    while i < values.len()
        invariant
            0 < i <= values@.len(),
            0 <= best < i,
            forall|k: int| 0 <= k < i ==> values@[k] <= values@[best as int],
            forall|k: int| best < k < i ==> values@[k] < values@[best as int],
        decreases values@.len() - i,
    {
        if values[i] >= values[best] {
            best = i;
        }
        i = i + 1;
    }
    Some((best, values[best]))
}

/// The longest correctly bracketed substring of `s` read as a cyclic string,
/// or the text `Infinite` when the best balanced run is at least one full
/// cycle long; an error when a character of `s` is wider than one code unit.
pub fn get_longest_correct_cyclic_substring(s: &str) -> (r: Result<String, ScanError>)
    ensures
        r is Ok <==> all_single_unit(s@),
        r matches Ok(out) ==> out@ == scan_result(s@),
        r matches Ok(out) ==> (scan_outcome(s@) matches Some(t) ==> out@ == t && t.len()
            < s@.len() && is_balanced(t)),
        r matches Ok(out) ==> (scan_outcome(s@) is None ==> out@ == unbounded_marker()),
        r matches Err(ScanError::InvalidInput(orig)) ==> orig@ == s@,
{
    if !s.is_ascii() {
        return Err(ScanError::InvalidInput(s.to_owned()));
    }
    let n = s.unicode_len();
    let mut double_s = s.to_owned();
    double_s.append(s);
    let d_len = double_s.as_str().unicode_len();
    assert(d_len as int == 2 * n);
    proof {
        assert forall|k: int| 0 <= k < double_s@.len() implies '\0' <= #[trigger] double_s@[k]
            <= '\u{7f}' by {
            if k < s@.len() {
                assert(double_s@[k] == s@[k]);
            } else {
                assert(double_s@[k] == s@[k - s@.len()]);
            }
        }
        assert(vstd::utf8::is_ascii_chars(double_s@));
    }

    // The characters of the doubled input, read off its bytes in one pass:
    // every character is a single byte here.
    let mut d: Vec<char> = Vec::new();
    let mut i: usize = 0;
    while i < d_len
        invariant
            i <= d_len,
            d_len as int == double_s@.len(),
            vstd::utf8::is_ascii_chars(double_s@),
            d@ =~= double_s@.subrange(0, i as int),
        decreases d_len - i,
    {
        let b = double_s.as_str().get_ascii(i);
        let c = b as char;
        proof {
            assert((double_s@[i as int] as u8) as char == double_s@[i as int]);
        }
        d.push(c);
        i = i + 1;
    }
    assert(d@ =~= double_s@);

    // For each position, the length of the longest correctly bracketed run
    // ending there.
    let mut nums: Vec<usize> = Vec::new();
    let mut i: usize = 0;
    while i < d_len
        invariant
            i <= d_len,
            d_len as int == d@.len(),
            nums@.len() == i,
            forall|k: int| 0 <= k < i ==> #[trigger] nums@[k] as nat == dp(d@, k),
        decreases d_len - i,
    {
        let c = d[i];
        let val: usize;
        if open_bracket(c) {
            val = 0;
        } else if close_bracket(c) {
            let opening = opening_of(c);
            if i == 0 {
                proof {
                    assert(dp(d@, -1) == 0);
                }
                val = 0;
            } else {
                let pn = nums[i - 1];
                proof {
                    assert(nums@[i - 1] as nat == dp(d@, i as int - 1));
                    lemma_dp_le(d@, i - 1);
                }
                if i - 1 < pn {
                    val = 0;
                } else {
                    let j = i - 1 - pn;
                    if d[j] == opening {
                        let prev: usize = if j >= 1 {
                            nums[j - 1]
                        } else {
                            0
                        };
                        proof {
                            if j >= 1 {
                                assert(nums@[j - 1] as nat == dp(d@, j as int - 1));
                            } else {
                                assert(dp(d@, -1) == 0);
                            }
                            lemma_dp_le(d@, j - 1);
                            assert(d@[j as int] == matching_open(d@[i as int]));
                        }
                        val = 2 + pn + prev;
                    } else {
                        val = 0;
                    }
                }
            }
        } else {
            if i == 0 {
                proof {
                    assert(dp(d@, -1) == 0);
                }
                val = 1;
            } else {
                proof {
                    assert(nums@[i - 1] as nat == dp(d@, i as int - 1));
                    lemma_dp_le(d@, i - 1);
                }
                val = nums[i - 1] + 1;
            }
        }
        assert(val as nat == dp(d@, i as int));
        nums.push(val);
        i = i + 1;
    }

    let (last_idx, max) = match get_idx_and_max(nums.as_slice()) {
        Some(p) => p,
        None => (0, 0),
    };
    // ties keep the first run found in scan order: move back to the
    // earliest position that carries the greatest run length
    let mut idx: usize = 0;
    while idx < last_idx && nums[idx] != max
        invariant
            idx <= last_idx,
            nums@.len() == 0 ==> last_idx == 0,
            nums@.len() > 0 ==> {
                &&& last_idx < nums@.len()
                &&& nums@[last_idx as int] == max
                &&& forall|k: int| 0 <= k < nums@.len() ==> nums@[k] <= max
            },
            forall|k: int| 0 <= k < idx ==> nums@[k] < max,
        decreases last_idx - idx,
    {
        idx = idx + 1;
    }
    proof {
        if n > 0 {
            let dvals = dp_values(d@);
            assert(nums@.map_values(|v: usize| v as nat) =~= dvals);
            assert(nums@[idx as int] == max);
            assert(dvals[idx as int] == max as nat);
            assert(forall|k: int| 0 <= k < dvals.len() ==> dvals[k] <= max as nat);
            assert(forall|k: int| 0 <= k < idx ==> dvals[k] < max as nat);
            lemma_best_idx_unique(dvals, idx as int);
            lemma_dp_le(d@, idx as int);
        }
        assert(double_s@ == s@ + s@);
    }
    if max < n {
        let result = double_s.as_str().substring_char(idx + 1 - max, idx + 1).to_owned();
        proof {
            let t = (s@ + s@).subrange(idx + 1 - max, idx as int + 1);
            assert(scan_outcome(s@) == Some(t));
            lemma_scan_outcome_substring(s@, t);
        }
        Ok(result)
    } else {
        proof {
            assert(scan_outcome(s@) is None);
        }
        Ok("Infinite".to_owned())
    }
}

} // verus!
