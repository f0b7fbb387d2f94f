//! Time windows over a series of timestamps in microseconds: which points a
//! window of the waveform view covers, and their times relative to the newest
//! point in milliseconds.

use vstd::prelude::*;

verus! {

/// `latest + offset_ms` milliseconds, in microseconds, clamped at 0.
pub open spec fn window_edge(latest: u64, offset_ms: i64) -> u64 {
    let t = (latest as i64) + offset_ms * 1000;
    if t < 0 {
        0
    } else {
        t as u64
    }
}

/// An offset of zero puts the edge at the latest time, and each further
/// millisecond of offset moves a non-negative edge by 1000 microseconds.
pub proof fn lemma_window_edge_steps(latest: u64, offset_ms: i64)
    requires
        latest <= i64::MAX,
        edge_fits(latest, offset_ms),
        edge_fits(latest, (offset_ms + 1) as i64),
        offset_ms < i64::MAX,
    ensures
        window_edge(latest, 0) == latest,
        (latest as i64) + offset_ms * 1000 >= 0 ==> window_edge(latest, (offset_ms + 1) as i64) == window_edge(
            latest,
            offset_ms,
        ) + 1000,
{
}

/// Computing the edge does not overflow `i64`.
pub open spec fn edge_fits(latest: u64, offset_ms: i64) -> bool {
    &&& i64::MIN <= offset_ms * 1000 <= i64::MAX
    &&& i64::MIN <= (latest as i64) + offset_ms * 1000 <= i64::MAX
}

/// Integer division rounding toward zero.
pub open spec fn div_toward_zero(a: int, b: int) -> int {
    if a >= 0 {
        a / b
    } else {
        -((-a) / b)
    }
}

/// Milliseconds from `latest` back to `t` (negative for earlier points).
pub open spec fn relative_ms(t: u64, latest: u64) -> int {
    div_toward_zero((t as i64) - (latest as i64), 1000)
}

/// The difference of the two timestamps read as `i64` does not overflow.
pub open spec fn difference_fits(t: u64, latest: u64) -> bool {
    i64::MIN <= (t as i64) - (latest as i64) <= i64::MAX
}

/// `[a, b)` is the window from `s` to `e`: `a` is the first point at or after
/// `s` (0 when there is none), `b` the first point from `a` on after `e` (the
/// length when none is).
pub open spec fn is_window(ts: Seq<u64>, s: u64, e: u64, a: int, b: int) -> bool {
    &&& 0 <= a <= b <= ts.len()
    &&& (exists|i: int| 0 <= i < ts.len() && ts[i] >= s) ==> (a < ts.len() && ts[a] >= s && forall|j: int|
        0 <= j < a ==> ts[j] < s)
    &&& !(exists|i: int| 0 <= i < ts.len() && ts[i] >= s) ==> a == 0
    &&& forall|j: int| a <= j < b ==> ts[j] <= e
    &&& b < ts.len() ==> ts[b] > e
}

/// On timestamps in time order, the window holds exactly the points from `s`
/// to `e` when some point is at or after `s`.
pub proof fn lemma_window_exact(ts: Seq<u64>, s: u64, e: u64, a: int, b: int)
    requires
        forall|i: int, j: int| 0 <= i <= j < ts.len() ==> ts[i] <= ts[j],
        is_window(ts, s, e, a, b),
        exists|i: int| 0 <= i < ts.len() && ts[i] >= s,
    ensures
        forall|j: int| 0 <= j < ts.len() ==> (a <= j < b <==> s <= #[trigger] ts[j] <= e),
{
    assert forall|j: int| 0 <= j < ts.len() implies (a <= j < b <==> s <= #[trigger] ts[j] <= e) by {
        if a <= j < b {
            assert(ts[a] <= ts[j]);
        }
        if s <= ts[j] <= e {
            if j < a {
                assert(ts[j] < s);
            }
            if j >= b {
                assert(ts[b] <= ts[j]);
            }
        }
    }
}

fn edge(latest: u64, offset_ms: i64) -> (r: u64)
    requires
        edge_fits(latest, offset_ms),
    ensures
        r == window_edge(latest, offset_ms),
{
    let t = (latest as i64) + offset_ms * 1000;
    if t < 0 {
        0
    } else {
        t as u64
    }
}

/// Index range `[start, end)` of the window from `start_ms` to `end_ms`
/// milliseconds around the newest point (the last one): `start` is the first
/// point at or after the window start (0 when there is none), `end` the first
/// point from `start` on that is after the window end (the length when none is).
pub fn window_bounds(ts: &[u64], start_ms: i64, end_ms: i64) -> (r: (usize, usize))
    requires
        ts@.len() > 0,
        edge_fits(ts@[ts@.len() - 1], start_ms),
        edge_fits(ts@[ts@.len() - 1], end_ms),
    ensures
        is_window(
            ts@,
            window_edge(ts@[ts@.len() - 1], start_ms),
            window_edge(ts@[ts@.len() - 1], end_ms),
            r.0 as int,
            r.1 as int,
        ),
{
    let n = ts.len();
    let latest = ts[n - 1];
    let s = edge(latest, start_ms);
    let e = edge(latest, end_ms);
    let mut i: usize = 0;
    while i < n && ts[i] < s
        invariant
            i <= n == ts@.len(),
            forall|j: int| 0 <= j < i ==> ts@[j] < s,
        decreases n - i,
    {
        i = i + 1;
    }
    let start = if i < n {
        i
    } else {
        0
    };
    let mut k: usize = start;
    while k < n && ts[k] <= e
        invariant
            start <= k <= n == ts@.len(),
            forall|j: int| start <= j < k ==> ts@[j] <= e,
        decreases n - k,
    {
        k = k + 1;
    }
    let end = k;
    (start, end)
}

/// Times of `ts[from..to]` relative to `latest`, in milliseconds rounded
/// toward zero.
pub fn relative_times(ts: &[u64], from: usize, to: usize, latest: u64) -> (r: Vec<i64>)
    requires
        from <= to <= ts@.len(),
        forall|j: int| from <= j < to ==> difference_fits(#[trigger] ts@[j], latest),
    ensures
        r@.len() == to - from,
        forall|k: int| 0 <= k < r@.len() ==> r@[k] == relative_ms(ts@[from + k], latest),
{
    let mut out: Vec<i64> = Vec::new();
    let mut j: usize = from;
    while j < to
        invariant
            from <= j <= to <= ts@.len(),
            out@.len() == j - from,
            forall|k: int| 0 <= k < out@.len() ==> out@[k] == relative_ms(ts@[from + k], latest),
            forall|j2: int| from <= j2 < to ==> difference_fits(#[trigger] ts@[j2], latest),
        decreases to - j,
    {
        assert(difference_fits(ts@[j as int], latest));
        let d = (ts[j] as i64) - (latest as i64);
        out.push(d / 1000);
        j = j + 1;
    }
    out
}

} // verus!
