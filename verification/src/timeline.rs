//! The timeline structure behind the export camera and the cursor path:
//! which zoom segment is active when, which target point applies, and which
//! points survive when several fall on the same millisecond.
//!
//! Positions and rectangles are floating point and stay with the caller;
//! the functions here work on times and hand back indices.

use vstd::prelude::*;
use crate::order::{before, is_stable_order, keys_from_u64, sorted_u64, stable_order};

verus! {

pub open spec fn widen(ts: Seq<u64>) -> Seq<u128> {
    Seq::new(ts.len(), |i: int| ts[i] as u128)
}

// ---------------------------------------------------------------------------
// Points on the same millisecond
// ---------------------------------------------------------------------------

/// Keeps one point per millisecond among the points `order` picks, in that
/// order: a later point replaces the kept one unless the kept one is a click
/// and the later one is not.
pub open spec fn dedupe_by_time(order: Seq<usize>, ts: Seq<u64>, is_click: Seq<bool>) -> Seq<usize>
    decreases order.len(),
{
    if order.len() == 0 {
        seq![]
    } else {
        let prev = dedupe_by_time(order.drop_last(), ts, is_click);
        let i = order.last();
        if prev.len() > 0 && ts[prev.last() as int] == ts[i as int] {
            if is_click[i as int] || !is_click[prev.last() as int] {
                prev.update(prev.len() - 1, i)
            } else {
                prev
            }
        } else {
            prev.push(i)
        }
    }
}

/// The cursor points kept when points are sorted by time (stably) and only
/// one is kept per millisecond, preferring clicks and then later points; the
/// result holds indices of `ts`.
pub fn dedupe_point_indices(ts: &Vec<u64>, is_click: &Vec<bool>) -> (r: Vec<usize>)
    requires
        is_click@.len() == ts@.len(),
    ensures
        exists|order: Seq<usize>| #![trigger dedupe_by_time(order, ts@, is_click@)]
            is_stable_order(order, widen(ts@)) && r@ == dedupe_by_time(order, ts@, is_click@),
{
    let keys = keys_from_u64(ts);
    assert(keys@ =~= widen(ts@));
    let order = stable_order(&keys);
    let mut r: Vec<usize> = Vec::new();
    let mut p: usize = 0;
    while p < order.len()
        invariant
            is_stable_order(order@, keys@),
            keys@.len() == ts@.len(),
            is_click@.len() == ts@.len(),
            p <= order.len(),
            r@ == dedupe_by_time(order@.subrange(0, p as int), ts@, is_click@),
            forall|j: int| 0 <= j < r@.len() ==> #[trigger] r@[j] < ts@.len(),
        decreases order.len() - p,
    {
        proof {
            assert(order@.subrange(0, p + 1).drop_last() =~= order@.subrange(0, p as int));
        }
        let i = order[p];
        let n = r.len();
        if n > 0 && ts[r[n - 1]] == ts[i] {
            if is_click[i] || !is_click[r[n - 1]] {
                r.set(n - 1, i);
            }
        } else {
            r.push(i);
        }
        p += 1;
    }
    assert(order@.subrange(0, order@.len() as int) =~= order@);
    r
}

proof fn lemma_dedupe_increasing(order: Seq<usize>, ts: Seq<u64>, is_click: Seq<bool>)
    requires
        forall|i: int| 0 <= i < order.len() ==> #[trigger] order[i] < ts.len(),
        forall|i: int, j: int| 0 <= i < j < order.len() ==> ts[#[trigger] order[i] as int] <= ts[#[trigger] order[j] as int],
    ensures
        forall|i: int| 0 <= i < dedupe_by_time(order, ts, is_click).len() ==> #[trigger] dedupe_by_time(order, ts, is_click)[i] < ts.len(),
        forall|i: int, j: int| 0 <= i < j < dedupe_by_time(order, ts, is_click).len() ==>
            ts[#[trigger] dedupe_by_time(order, ts, is_click)[i] as int] < ts[#[trigger] dedupe_by_time(order, ts, is_click)[j] as int],
        order.len() > 0 ==> dedupe_by_time(order, ts, is_click).len() > 0
            && ts[dedupe_by_time(order, ts, is_click).last() as int] == ts[order.last() as int],
    decreases order.len(),
{
    if order.len() > 0 {
        let init = order.drop_last();
        lemma_dedupe_increasing(init, ts, is_click);
        let prev = dedupe_by_time(init, ts, is_click);
        let r = dedupe_by_time(order, ts, is_click);
        let i = order.last();
        if prev.len() > 0 {
            assert(ts[prev.last() as int] == ts[init.last() as int]);
            assert(ts[init.last() as int] <= ts[i as int]) by {
                assert(init.last() == order[order.len() - 2]);
            }
        }
        assert forall|a: int, b: int| 0 <= a < b < r.len() implies ts[#[trigger] r[a] as int] < ts[#[trigger] r[b] as int] by {
            if prev.len() > 0 && ts[prev.last() as int] == ts[i as int] {
                if is_click[i as int] || !is_click[prev.last() as int] {
                    if b == r.len() - 1 {
                        assert(r[b] == i);
                        assert(r[a] == prev[a]);
                        assert(ts[prev[a] as int] < ts[prev[prev.len() - 1] as int]);
                    } else {
                        assert(r[a] == prev[a] && r[b] == prev[b]);
                    }
                } else {
                    assert(r == prev);
                }
            } else {
                if b == r.len() - 1 {
                    assert(r[b] == i);
                    assert(r[a] == prev[a]);
                    if a < prev.len() - 1 {
                        assert(ts[prev[a] as int] < ts[prev[prev.len() - 1] as int]);
                    }
                } else {
                    assert(r[a] == prev[a] && r[b] == prev[b]);
                }
            }
        }
    }
}

/// The points kept per millisecond come in strictly increasing time: no
/// two share a millisecond, and none is out of time order.
pub proof fn law_kept_points_strictly_increase_in_time(order: Seq<usize>, ts: Seq<u64>, is_click: Seq<bool>)
    requires
        is_stable_order(order, widen(ts)),
    ensures
        forall|i: int, j: int| 0 <= i < j < dedupe_by_time(order, ts, is_click).len() ==>
            ts[#[trigger] dedupe_by_time(order, ts, is_click)[i] as int] < ts[#[trigger] dedupe_by_time(order, ts, is_click)[j] as int],
{
    assert forall|i: int, j: int| 0 <= i < j < order.len() implies ts[#[trigger] order[i] as int] <= ts[#[trigger] order[j] as int] by {
        assert(before(widen(ts), order[i] as int, order[j] as int));
    }
    lemma_dedupe_increasing(order, ts, is_click);
}

// ---------------------------------------------------------------------------
// Camera anchors
// ---------------------------------------------------------------------------

/// The times at which the export camera may change target: the start, the
/// end, and every segment boundary and target point, sorted and without
/// repeats.
pub fn camera_anchor_times(duration_ms: u64, times: &Vec<u64>) -> (r: Vec<u64>)
    ensures
        forall|i: int, j: int| 0 <= i < j < r@.len() ==> #[trigger] r@[i] < #[trigger] r@[j],
        forall|x: u64| #[trigger] r@.contains(x) <==> (x == 0 || x == duration_ms || times@.contains(x)),
{
    let mut all: Vec<u64> = Vec::new();
    all.push(0);
    all.push(duration_ms);
    let mut i: usize = 0;
    while i < times.len()
        invariant
            i <= times@.len(),
            all@ == seq![0u64, duration_ms] + times@.subrange(0, i as int),
        decreases times.len() - i,
    {
        all.push(times[i]);
        i += 1;
        assert(all@ =~= seq![0u64, duration_ms] + times@.subrange(0, i as int));
    }
    assert(times@.subrange(0, times@.len() as int) =~= times@);
    let sorted = sorted_u64(&all);
    let mut r: Vec<u64> = Vec::new();
    let mut k: usize = 0;
    while k < sorted.len()
        invariant
            k <= sorted@.len(),
            forall|a: int, b: int| 0 <= a <= b < sorted@.len() ==> #[trigger] sorted@[a] <= #[trigger] sorted@[b],
            forall|a: int, b: int| 0 <= a < b < r@.len() ==> #[trigger] r@[a] < #[trigger] r@[b],
            k > 0 ==> r@.len() > 0 && r@.last() == sorted@[k - 1],
            k == 0 ==> r@.len() == 0,
            forall|x: u64| #[trigger] r@.contains(x) <==> sorted@.subrange(0, k as int).contains(x),
        decreases sorted.len() - k,
    {
        let v = sorted[k];
        let n = r.len();
        let ghost old_r = r@;
        if !(n > 0 && r[n - 1] == v) {
            r.push(v);
        }
        proof {
            assert(sorted@.subrange(0, k + 1) =~= sorted@.subrange(0, k as int).push(v));
            assert forall|x: u64| #[trigger] r@.contains(x) <==> sorted@.subrange(0, k + 1).contains(x) by {
                if r@.contains(x) {
                    let w = choose|w: int| 0 <= w < r@.len() && r@[w] == x;
                    if w < old_r.len() {
                        assert(old_r[w] == x);
                        assert(old_r.contains(x));
                        assert(sorted@.subrange(0, k as int).contains(x));
                        let pre = sorted@.subrange(0, k as int);
                        let m = choose|m: int| 0 <= m < pre.len() && pre[m] == x;
                        assert(sorted@.subrange(0, k + 1)[m] == x);
                    } else {
                        assert(sorted@.subrange(0, k + 1)[k as int] == x);
                    }
                }
                let next = sorted@.subrange(0, k + 1);
                if next.contains(x) {
                    let m = choose|m: int| 0 <= m < next.len() && next[m] == x;
                    if m < k {
                        assert(sorted@.subrange(0, k as int)[m] == x);
                        assert(sorted@.subrange(0, k as int).contains(x));
                        assert(old_r.contains(x));
                        let w = choose|w: int| 0 <= w < old_r.len() && old_r[w] == x;
                        assert(r@[w] == x);
                    } else if n > 0 && old_r.last() == v {
                        assert(r@[n - 1] == x);
                    } else {
                        assert(r@[n as int] == x);
                    }
                }
            }
            if k > 0 && !(n > 0 && old_r.last() == v) {
                assert(sorted@[k - 1] <= sorted@[k as int]);
            }
            assert forall|a: int, b: int| 0 <= a < b < r@.len() implies #[trigger] r@[a] < #[trigger] r@[b] by {
                if b < old_r.len() {
                    assert(old_r[a] < old_r[b]);
                } else {
                    assert(r@[b] == v);
                    assert(r@[a] == old_r[a]);
                    assert(k > 0);
                    assert(sorted@[k - 1] <= sorted@[k as int]);
                    assert(old_r[n - 1] == sorted@[k - 1]);
                    assert(old_r[n - 1] < v);
                    if a < n - 1 {
                        assert(old_r[a] < old_r[n - 1]);
                    }
                }
            }
        }
        k += 1;
    }
    proof {
        assert(sorted@.subrange(0, sorted@.len() as int) =~= sorted@);
        assert forall|x: u64| #[trigger] r@.contains(x) <==> (x == 0 || x == duration_ms || times@.contains(x)) by {
            assert(sorted@.to_multiset().count(x) == all@.to_multiset().count(x));
            vstd::seq_lib::lemma_seq_contains_after_push(seq![0u64, duration_ms], 0, x);
            if sorted@.contains(x) {
                assert(sorted@.to_multiset().count(x) > 0) by {
                    broadcast use vstd::seq_lib::group_to_multiset_ensures;
                }
                assert(all@.contains(x)) by {
                    broadcast use vstd::seq_lib::group_to_multiset_ensures;
                }
                let m = choose|m: int| 0 <= m < all@.len() && all@[m] == x;
                if m >= 2 {
                    assert(times@[m - 2] == x);
                }
            }
            if x == 0 || x == duration_ms || times@.contains(x) {
                if x == 0 {
                    assert(all@[0] == x);
                } else if x == duration_ms {
                    assert(all@[1] == x);
                } else {
                    let m = choose|m: int| 0 <= m < times@.len() && times@[m] == x;
                    assert(all@[m + 2] == x);
                }
                assert(all@.contains(x));
                assert(sorted@.contains(x)) by {
                    broadcast use vstd::seq_lib::group_to_multiset_ensures;
                }
            }
        }
    }
    r
}

// ---------------------------------------------------------------------------
// Segments
// ---------------------------------------------------------------------------

/// The segments `order` picks, each cut at `duration_ms`, without those left
/// empty: `(index, start, end)`.
pub open spec fn clipped_spans(order: Seq<usize>, starts: Seq<u64>, ends: Seq<u64>, duration_ms: u64) -> Seq<(usize, u64, u64)>
    decreases order.len(),
{
    if order.len() == 0 {
        seq![]
    } else {
        let prev = clipped_spans(order.drop_last(), starts, ends, duration_ms);
        let i = order.last();
        let s = if starts[i as int] < duration_ms { starts[i as int] } else { duration_ms };
        let e = if ends[i as int] < duration_ms { ends[i as int] } else { duration_ms };
        if e <= s { prev } else { prev.push((i, s, e)) }
    }
}

/// The zoom segments as the export camera uses them: in the stable order of
/// their starts, each cut at the project's duration, empty ones dropped;
/// `(index, start, end)`.
pub fn runtime_segment_spans(starts: &Vec<u64>, ends: &Vec<u64>, duration_ms: u64) -> (r: Vec<(usize, u64, u64)>)
    requires
        ends@.len() == starts@.len(),
    ensures
        exists|order: Seq<usize>| #![trigger clipped_spans(order, starts@, ends@, duration_ms)]
            is_stable_order(order, widen(starts@)) && r@ == clipped_spans(order, starts@, ends@, duration_ms),
{
    let keys = keys_from_u64(starts);
    assert(keys@ =~= widen(starts@));
    let order = stable_order(&keys);
    let mut r: Vec<(usize, u64, u64)> = Vec::new();
    let mut p: usize = 0;
    while p < order.len()
        invariant
            is_stable_order(order@, keys@),
            keys@.len() == starts@.len(),
            ends@.len() == starts@.len(),
            p <= order.len(),
            r@ == clipped_spans(order@.subrange(0, p as int), starts@, ends@, duration_ms),
        decreases order.len() - p,
    {
        proof {
            assert(order@.subrange(0, p + 1).drop_last() =~= order@.subrange(0, p as int));
        }
        let i = order[p];
        let s = if starts[i] < duration_ms { starts[i] } else { duration_ms };
        let e = if ends[i] < duration_ms { ends[i] } else { duration_ms };
        if e > s {
            r.push((i, s, e));
        }
        p += 1;
    }
    assert(order@.subrange(0, order@.len() as int) =~= order@);
    r
}

/// The segment in effect at `ts`: the last one (in list order) that covers
/// it.
pub open spec fn segment_at(spans: Seq<(u64, u64)>, ts: u64, k: int) -> Option<int>
    decreases k,
{
    if k <= 0 {
        None
    } else if spans[k - 1].0 <= ts && ts < spans[k - 1].1 {
        Some(k - 1)
    } else {
        segment_at(spans, ts, k - 1)
    }
}

pub fn resolve_runtime_segment(spans: &Vec<(u64, u64)>, ts: u64) -> (r: Option<usize>)
    ensures
        match segment_at(spans@, ts, spans@.len() as int) {
            Some(j) => r == Some(j as usize),
            None => r is None,
        },
{
    let mut k: usize = spans.len();
    while k > 0
        invariant
            k <= spans@.len(),
            segment_at(spans@, ts, spans@.len() as int) == segment_at(spans@, ts, k as int),
        decreases k,
    {
        let (s, e) = spans[k - 1];
        if s <= ts && ts < e {
            return Some(k - 1);
        }
        k -= 1;
    }
    None
}

/// The target point in effect at `ts` among points at the times `point_ts`
/// (sorted): the first one up to its time, then the last one reached.
pub open spec fn last_reached(point_ts: Seq<u64>, ts: u64, k: int) -> Option<int>
    decreases k,
{
    if k <= 0 {
        None
    } else if ts >= point_ts[k - 1] {
        Some(k - 1)
    } else {
        last_reached(point_ts, ts, k - 1)
    }
}

pub open spec fn target_point_at(point_ts: Seq<u64>, ts: u64) -> Option<int> {
    if point_ts.len() == 0 {
        None
    } else if ts <= point_ts[0] {
        Some(0)
    } else {
        match last_reached(point_ts, ts, point_ts.len() as int) {
            Some(j) => Some(j),
            None => Some(0),
        }
    }
}

pub fn target_point_index_at(point_ts: &Vec<u64>, ts: u64) -> (r: Option<usize>)
    ensures
        match target_point_at(point_ts@, ts) {
            Some(j) => r == Some(j as usize),
            None => r is None,
        },
{
    if point_ts.len() == 0 {
        return None;
    }
    if ts <= point_ts[0] {
        return Some(0);
    }
    let mut k: usize = point_ts.len();
    while k > 0
        invariant
            0 < point_ts@.len(),
            ts > point_ts@[0],
            k <= point_ts@.len(),
            last_reached(point_ts@, ts, point_ts@.len() as int) == last_reached(point_ts@, ts, k as int),
        decreases k,
    {
        if ts >= point_ts[k - 1] {
            return Some(k - 1);
        }
        k -= 1;
    }
    Some(0)
}

// ---------------------------------------------------------------------------
// Target points of a segment
// ---------------------------------------------------------------------------

/// One millisecond per point among the points `order` picks (the later
/// point of a millisecond wins): `(index, time)`.
pub open spec fn last_per_time(order: Seq<usize>, ts: Seq<u64>) -> Seq<(usize, u64)>
    decreases order.len(),
{
    if order.len() == 0 {
        seq![]
    } else {
        let prev = last_per_time(order.drop_last(), ts);
        let i = order.last();
        if prev.len() > 0 && prev.last().1 == ts[i as int] {
            prev.update(prev.len() - 1, (i, ts[i as int]))
        } else {
            prev.push((i, ts[i as int]))
        }
    }
}

/// The target points of a segment `[start, end]`, as `(point, time)` where
/// `None` stands for the segment's own rectangle: the given points moved into
/// the segment, in time order, one per millisecond; the first point's
/// rectangle is also used from the start and the last one's to the end. A
/// segment without points holds its own rectangle throughout.
pub open spec fn target_plan(kept: Seq<(usize, u64)>, start: u64, end: u64) -> Seq<(Option<usize>, u64)> {
    if kept.len() == 0 {
        seq![(None::<usize>, start), (None::<usize>, end)]
    } else {
        let body = Seq::new(kept.len(), |i: int| (Some(kept[i].0), kept[i].1));
        let with_start = if kept[0].1 > start { seq![(Some(kept[0].0), start)] + body } else { body };
        if kept.last().1 < end { with_start.push((Some(kept.last().0), end)) } else { with_start }
    }
}

pub open spec fn clamped_times(ts: Seq<u64>, start: u64, end: u64) -> Seq<u64> {
    Seq::new(ts.len(), |i: int| if ts[i] < start { start } else if ts[i] > end { end } else { ts[i] })
}

pub fn normalize_target_point_plan(point_ts: &Vec<u64>, start_ts: u64, end_ts: u64) -> (r: Vec<(Option<usize>, u64)>)
    requires
        start_ts <= end_ts,
    ensures
        exists|order: Seq<usize>| #![trigger last_per_time(order, clamped_times(point_ts@, start_ts, end_ts))]
            is_stable_order(order, widen(clamped_times(point_ts@, start_ts, end_ts)))
                && r@ == target_plan(last_per_time(order, clamped_times(point_ts@, start_ts, end_ts)), start_ts, end_ts),
{
    let ghost cts = clamped_times(point_ts@, start_ts, end_ts);
    let mut clamped: Vec<u64> = Vec::new();
    let mut i: usize = 0;
    while i < point_ts.len()
        invariant
            i <= point_ts@.len(),
            cts == clamped_times(point_ts@, start_ts, end_ts),
            clamped@ == cts.subrange(0, i as int),
        decreases point_ts.len() - i,
    {
        let t = point_ts[i];
        clamped.push(if t < start_ts { start_ts } else if t > end_ts { end_ts } else { t });
        i += 1;
        assert(clamped@ =~= cts.subrange(0, i as int));
    }
    assert(clamped@ =~= cts);
    let keys = keys_from_u64(&clamped);
    assert(keys@ =~= widen(cts));
    let order = stable_order(&keys);
    let mut kept: Vec<(usize, u64)> = Vec::new();
    let mut p: usize = 0;
    while p < order.len()
        invariant
            is_stable_order(order@, keys@),
            keys@.len() == cts.len(),
            clamped@ == cts,
            p <= order.len(),
            kept@ == last_per_time(order@.subrange(0, p as int), cts),
        decreases order.len() - p,
    {
        proof {
            assert(order@.subrange(0, p + 1).drop_last() =~= order@.subrange(0, p as int));
        }
        let idx = order[p];
        let t = clamped[idx];
        let n = kept.len();
        if n > 0 && kept[n - 1].1 == t {
            kept.set(n - 1, (idx, t));
        } else {
            kept.push((idx, t));
        }
        p += 1;
    }
    assert(order@.subrange(0, order@.len() as int) =~= order@);
    let ghost kept_spec = kept@;
    let mut r: Vec<(Option<usize>, u64)> = Vec::new();
    if kept.len() == 0 {
        r.push((None, start_ts));
        r.push((None, end_ts));
        assert(r@ =~= target_plan(kept_spec, start_ts, end_ts));
        return r;
    }
    let (first_idx, first_ts) = kept[0];
    if first_ts > start_ts {
        r.push((Some(first_idx), start_ts));
    }
    let ghost head = r@;
    let mut k: usize = 0;
    while k < kept.len()
        invariant
            k <= kept@.len(),
            kept@ == kept_spec,
            r@ == head + Seq::new(k as nat, |j: int| (Some(kept_spec[j].0), kept_spec[j].1)),
        decreases kept.len() - k,
    {
        let (idx, t) = kept[k];
        r.push((Some(idx), t));
        k += 1;
        assert(r@ =~= head + Seq::new(k as nat, |j: int| (Some(kept_spec[j].0), kept_spec[j].1)));
    }
    let (last_idx, last_ts) = kept[kept.len() - 1];
    if last_ts < end_ts {
        r.push((Some(last_idx), end_ts));
    }
    proof {
        let body = Seq::new(kept_spec.len(), |j: int| (Some(kept_spec[j].0), kept_spec[j].1));
        assert(Seq::new(kept_spec.len() as nat, |j: int| (Some(kept_spec[j].0), kept_spec[j].1)) =~= body);
        if first_ts > start_ts {
            assert(head =~= seq![(Some(first_idx), start_ts)]);
        } else {
            assert(head =~= Seq::<(Option<usize>, u64)>::empty());
        }
        assert(r@ =~= target_plan(kept_spec, start_ts, end_ts));
    }
    r
}

} // verus!
