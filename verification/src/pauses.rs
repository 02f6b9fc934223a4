//! Timeline arithmetic for paused recordings.
//!
//! While a recording is paused, the capture stops producing frames, so the
//! saved video is shorter than the wall-clock span of the session. The input
//! events and the audio tracks, however, are stamped on the wall clock. This
//! module maps both onto the video's timeline: it computes the spans that
//! were actually recorded, and it shifts every event left by the paused time
//! before it, dropping events that fell inside a pause.

use vstd::prelude::*;
use crate::order::{is_stable_order, keys_from_u64, stable_order};
use crate::ranges::{complement_within, covers, is_canonical, merge_ranges, same_cover};

verus! {

// ---------------------------------------------------------------------------
// Totals
// ---------------------------------------------------------------------------

/// Sum of the lengths of `ranges`, an inverted range counting as empty.
pub open spec fn pause_total(ranges: Seq<(u64, u64)>) -> int
    decreases ranges.len(),
{
    if ranges.len() == 0 {
        0
    } else {
        pause_total(ranges.drop_last()) + ranges.last().1.saturating_sub(ranges.last().0)
    }
}

/// Total paused milliseconds of a session.
pub fn total_pause_duration_ms(pause_ranges_ms: &Vec<(u64, u64)>) -> (total: u64)
    requires
        pause_total(pause_ranges_ms@) <= u64::MAX,
    ensures
        total == pause_total(pause_ranges_ms@),
{
    let mut total: u64 = 0;
    let mut i: usize = 0;
    while i < pause_ranges_ms.len()
        invariant
            i <= pause_ranges_ms.len(),
            pause_total(pause_ranges_ms@) <= u64::MAX,
            total == pause_total(pause_ranges_ms@.subrange(0, i as int)),
        decreases pause_ranges_ms.len() - i,
    {
        let (start, end) = pause_ranges_ms[i];
        proof {
            let s = pause_ranges_ms@;
            assert(s.subrange(0, i + 1).drop_last() =~= s.subrange(0, i as int));
            lemma_pause_total_prefix(s, i + 1);
        }
        total = total + end.saturating_sub(start);
        i += 1;
    }
    assert(pause_ranges_ms@.subrange(0, pause_ranges_ms.len() as int) =~= pause_ranges_ms@);
    total
}

/// The total of a prefix is at most the total of the whole list.
proof fn lemma_pause_total_prefix(s: Seq<(u64, u64)>, k: int)
    requires
        0 <= k <= s.len(),
    ensures
        pause_total(s.subrange(0, k)) <= pause_total(s),
    decreases s.len() - k,
{
    if k < s.len() {
        lemma_pause_total_prefix(s, k + 1);
        assert(s.subrange(0, k + 1).drop_last() =~= s.subrange(0, k));
    } else {
        assert(s.subrange(0, k) =~= s);
    }
}

/// Length of the recorded video: the wall-clock span of the session minus the
/// paused time, never below zero.
pub fn recorded_duration_ms(start_ms: u64, end_ms: u64, paused_total_ms: u64) -> (d: u64)
    ensures
        d == end_ms.saturating_sub(start_ms).saturating_sub(paused_total_ms),
{
    end_ms.saturating_sub(start_ms).saturating_sub(paused_total_ms)
}

// ---------------------------------------------------------------------------
// Recorded spans
// ---------------------------------------------------------------------------

/// A pause in wall-clock milliseconds, made relative to the session start and
/// cut at the session's length.
pub open spec fn clip_pause(p: (u64, u64), start_ms: u64, total_ms: u64) -> (u64, u64) {
    let s = p.0.saturating_sub(start_ms);
    let e = p.1.saturating_sub(start_ms);
    (s, if e < total_ms { e } else { total_ms })
}

pub open spec fn clipped_pauses(pauses: Seq<(u64, u64)>, start_ms: u64, total_ms: u64) -> Seq<(u64, u64)> {
    Seq::new(pauses.len(), |i: int| clip_pause(pauses[i], start_ms, total_ms))
}

/// The spans of a session, relative to its start, that were recorded: all of
/// `[0, end_ms - start_ms)` but the pauses.
///
/// The result is canonical (sorted, non-empty spans with gaps between them),
/// so it is determined by the milliseconds it covers, which the last clause
/// states.
pub fn keep_ranges_after_pauses(start_ms: u64, end_ms: u64, pause_ranges_ms: &Vec<(u64, u64)>) -> (keep: Vec<(u64, u64)>)
    ensures
        is_canonical(keep@),
        forall|i: int| 0 <= i < keep@.len() ==> #[trigger] keep@[i].1 <= end_ms.saturating_sub(start_ms),
        forall|t: int| #[trigger] covers(keep@, t) == (0 <= t < end_ms.saturating_sub(start_ms)
            && !covers(clipped_pauses(pause_ranges_ms@, start_ms, end_ms.saturating_sub(start_ms)), t)),
{
    let total_ms = end_ms.saturating_sub(start_ms);
    if total_ms == 0 {
        let keep: Vec<(u64, u64)> = Vec::new();
        proof {
            assert forall|t: int| #[trigger] covers(keep@, t) == (0 <= t < total_ms
                && !covers(clipped_pauses(pause_ranges_ms@, start_ms, total_ms), t)) by {
            }
        }
        return keep;
    }
    let ghost clipped_spec = clipped_pauses(pause_ranges_ms@, start_ms, total_ms);
    let mut clipped: Vec<(u64, u64)> = Vec::new();
    let mut i: usize = 0;
    while i < pause_ranges_ms.len()
        invariant
            i <= pause_ranges_ms.len(),
            clipped_spec == clipped_pauses(pause_ranges_ms@, start_ms, total_ms),
            clipped@ == clipped_spec.subrange(0, i as int),
        decreases pause_ranges_ms.len() - i,
    {
        let (s, e) = pause_ranges_ms[i];
        let rs = s.saturating_sub(start_ms);
        let re = e.saturating_sub(start_ms);
        let ce = if re < total_ms { re } else { total_ms };
        clipped.push((rs, ce));
        proof {
            assert(clipped@ =~= clipped_spec.subrange(0, i + 1));
        }
        i += 1;
    }
    assert(clipped@ =~= clipped_spec);
    let merged = merge_ranges(&clipped);
    proof {
        assert forall|k: int| 0 <= k < merged@.len() implies #[trigger] merged@[k].1 <= total_ms by {
            let t = merged@[k].1 - 1;
            assert(merged@[k].0 < merged@[k].1);
            assert(covers(merged@, t));
            assert(covers(clipped@, t));
            let w = choose|w: int| #![trigger clipped@[w]] 0 <= w < clipped@.len() && clipped@[w].0 <= t && t < clipped@[w].1;
            assert(clipped@[w] == clip_pause(pause_ranges_ms@[w], start_ms, total_ms));
        }
    }
    let keep = complement_within(&merged, total_ms);
    proof {
        assert forall|t: int| #[trigger] covers(keep@, t) == (0 <= t < total_ms && !covers(clipped_spec, t)) by {
            assert(covers(merged@, t) == covers(clipped@, t));
        }
    }
    keep
}

// ---------------------------------------------------------------------------
// Event timestamps
// ---------------------------------------------------------------------------

/// A pause made relative to the session start; an inverted pause becomes
/// empty.
pub open spec fn relative_pause(p: (u64, u64), start_ms: u64) -> (u64, u64) {
    let s = p.0.saturating_sub(start_ms);
    let e = p.1.saturating_sub(start_ms);
    (s, if e > s { e } else { s })
}

pub open spec fn relative_pauses(pauses: Seq<(u64, u64)>, start_ms: u64) -> Seq<(u64, u64)> {
    Seq::new(pauses.len(), |i: int| relative_pause(pauses[i], start_ms))
}

/// Paused milliseconds strictly before `t`: the total length of the ranges of
/// `m` that end at or before `t`. (For canonical `m` and `t` outside every
/// range, this is exactly the number of paused milliseconds below `t`.)
pub open spec fn paused_before(m: Seq<(u64, u64)>, t: int) -> int
    decreases m.len(),
{
    if m.len() == 0 {
        0
    } else {
        paused_before(m.drop_last(), t) + if m.last().1 <= t { m.last().1 - m.last().0 } else { 0 }
    }
}

/// Total length of the ranges of `m`.
pub open spec fn ranges_len(m: Seq<(u64, u64)>) -> int
    decreases m.len(),
{
    if m.len() == 0 {
        0
    } else {
        ranges_len(m.drop_last()) + (m.last().1 - m.last().0)
    }
}

/// The events, taken in the order `order`, that do not fall inside a pause
/// of `m`, each with its index and its timestamp moved left by the paused
/// time before it.
pub open spec fn shifted_events(order: Seq<usize>, ts: Seq<u64>, m: Seq<(u64, u64)>) -> Seq<(usize, u64)>
    decreases order.len(),
{
    if order.len() == 0 {
        seq![]
    } else {
        let rest = shifted_events(order.drop_last(), ts, m);
        let i = order.last();
        let t = ts[i as int];
        if covers(m, t as int) {
            rest
        } else {
            rest.push((i, (t - paused_before(m, t as int)) as u64))
        }
    }
}

/// Each event with its index and unchanged timestamp.
pub open spec fn unchanged_events(ts: Seq<u64>) -> Seq<(usize, u64)> {
    Seq::new(ts.len(), |i: int| (i as usize, ts[i]))
}

pub open spec fn widen(ts: Seq<u64>) -> Seq<u128> {
    Seq::new(ts.len(), |i: int| ts[i] as u128)
}

proof fn lemma_ranges_len_prefix_bound(m: Seq<(u64, u64)>, k: int)
    requires
        is_canonical(m),
        0 < k <= m.len(),
    ensures
        0 <= ranges_len(m.subrange(0, k)) <= m[k - 1].1,
    decreases k,
{
    assert(m.subrange(0, k).drop_last() =~= m.subrange(0, k - 1));
    assert(m.subrange(0, k).last() == m[k - 1]);
    assert(ranges_len(m.subrange(0, k)) == ranges_len(m.subrange(0, k - 1)) + (m[k - 1].1 - m[k - 1].0));
    if k > 1 {
        lemma_ranges_len_prefix_bound(m, k - 1);
        assert(m[k - 2].1 < m[k - 1].0);
    } else {
        assert(ranges_len(m.subrange(0, 0)) == 0);
    }
    assert(m[k - 1].0 < m[k - 1].1);
}

proof fn lemma_paused_before_split(m: Seq<(u64, u64)>, t: int, k: int)
    requires
        0 <= k <= m.len(),
        forall|j: int| 0 <= j < k ==> #[trigger] m[j].1 <= t,
        forall|j: int| k <= j < m.len() ==> #[trigger] m[j].1 > t,
    ensures
        paused_before(m, t) == ranges_len(m.subrange(0, k)),
    decreases m.len(),
{
    if m.len() == 0 {
    } else if k < m.len() {
        let d = m.drop_last();
        assert forall|j: int| 0 <= j < k implies #[trigger] d[j].1 <= t by {
            assert(d[j] == m[j]);
        }
        assert forall|j: int| k <= j < d.len() implies #[trigger] d[j].1 > t by {
            assert(d[j] == m[j]);
        }
        lemma_paused_before_split(d, t, k);
        assert(d.subrange(0, k) =~= m.subrange(0, k));
    } else {
        let d = m.drop_last();
        assert forall|j: int| 0 <= j < k - 1 implies #[trigger] d[j].1 <= t by {
            assert(d[j] == m[j]);
        }
        lemma_paused_before_split(d, t, k - 1);
        assert(d.subrange(0, k - 1) =~= d);
        assert(m.subrange(0, k) =~= m);
        assert(m.drop_last() =~= d);
    }
}

proof fn lemma_shifted_events_push(order: Seq<usize>, ts: Seq<u64>, m: Seq<(u64, u64)>, p: int)
    requires
        0 <= p < order.len(),
    ensures
        shifted_events(order.subrange(0, p + 1), ts, m) == ({
            let rest = shifted_events(order.subrange(0, p), ts, m);
            let t = ts[order[p] as int];
            if covers(m, t as int) {
                rest
            } else {
                rest.push((order[p], (t - paused_before(m, t as int)) as u64))
            }
        }),
{
    assert(order.subrange(0, p + 1).drop_last() =~= order.subrange(0, p));
}

/// Moves event timestamps from the wall clock onto the recorded timeline.
///
/// `ts` holds the events' timestamps (milliseconds since `start_ms`),
/// `pause_ranges_abs_ms` the pauses in wall-clock milliseconds. Each result is
/// an event's index in `ts` with its new timestamp.
///
/// With no events or no pauses, every event is kept as it is. Otherwise the
/// events are taken in the stable order of their timestamps; an event inside
/// a pause is dropped, and every other one moves left by the total length of
/// the pauses that ended at or before it.
pub fn normalize_event_times_for_pauses(ts: &Vec<u64>, start_ms: u64, pause_ranges_abs_ms: &Vec<(u64, u64)>) -> (r: Vec<(usize, u64)>)
    ensures
        (ts@.len() == 0 || pause_ranges_abs_ms@.len() == 0) ==> r@ == unchanged_events(ts@),
        (ts@.len() > 0 && pause_ranges_abs_ms@.len() > 0) ==> exists|order: Seq<usize>, m: Seq<(u64, u64)>|
            #![trigger shifted_events(order, ts@, m)]
            is_stable_order(order, widen(ts@)) && is_canonical(m)
                && same_cover(m, relative_pauses(pause_ranges_abs_ms@, start_ms))
                && r@ == shifted_events(order, ts@, m),
{
    if ts.len() == 0 || pause_ranges_abs_ms.len() == 0 {
        let mut r: Vec<(usize, u64)> = Vec::new();
        let mut i: usize = 0;
        while i < ts.len()
            invariant
                i <= ts.len(),
                r@ == unchanged_events(ts@).subrange(0, i as int),
            decreases ts.len() - i,
        {
            r.push((i, ts[i]));
            i += 1;
            assert(r@ =~= unchanged_events(ts@).subrange(0, i as int));
        }
        assert(r@ =~= unchanged_events(ts@));
        return r;
    }
    let keys = keys_from_u64(ts);
    assert(keys@ =~= widen(ts@));
    let order = stable_order(&keys);

    let ghost rel_spec = relative_pauses(pause_ranges_abs_ms@, start_ms);
    let mut rel: Vec<(u64, u64)> = Vec::new();
    let mut i: usize = 0;
    while i < pause_ranges_abs_ms.len()
        invariant
            i <= pause_ranges_abs_ms.len(),
            rel_spec == relative_pauses(pause_ranges_abs_ms@, start_ms),
            rel@ == rel_spec.subrange(0, i as int),
        decreases pause_ranges_abs_ms.len() - i,
    {
        let (s, e) = pause_ranges_abs_ms[i];
        let rs = s.saturating_sub(start_ms);
        let re = e.saturating_sub(start_ms);
        let ce = if re > rs { re } else { rs };
        rel.push((rs, ce));
        proof {
            assert(rel@ =~= rel_spec.subrange(0, i + 1));
        }
        i += 1;
    }
    assert(rel@ =~= rel_spec);
    let merged = merge_ranges(&rel);

    let mut r: Vec<(usize, u64)> = Vec::new();
    let mut range_idx: usize = 0;
    let mut shift: u64 = 0;
    let mut p: usize = 0;
    while p < order.len()
        invariant
            is_stable_order(order@, keys@),
            keys@ == widen(ts@),
            is_canonical(merged@),
            p <= order.len(),
            range_idx <= merged@.len(),
            shift == ranges_len(merged@.subrange(0, range_idx as int)),
            p > 0 ==> forall|j: int| 0 <= j < range_idx ==> #[trigger] merged@[j].1 <= ts@[order@[p - 1] as int],
            p == 0 ==> range_idx == 0,
            r@ == shifted_events(order@.subrange(0, p as int), ts@, merged@),
        decreases order.len() - p,
    {
        let idx = order[p];
        let raw_ts = ts[idx];
        proof {
            if p > 0 {
                assert(crate::order::before(keys@, order@[p - 1] as int, order@[p as int] as int));
            }
        }
        while range_idx < merged.len() && merged[range_idx].1 <= raw_ts
            invariant
                is_canonical(merged@),
                range_idx <= merged@.len(),
                shift == ranges_len(merged@.subrange(0, range_idx as int)),
                forall|j: int| 0 <= j < range_idx ==> #[trigger] merged@[j].1 <= raw_ts,
            decreases merged@.len() - range_idx,
        {
            proof {
                lemma_ranges_len_prefix_bound(merged@, range_idx + 1);
                assert(merged@.subrange(0, range_idx + 1).drop_last() =~= merged@.subrange(0, range_idx as int));
            }
            shift = shift.saturating_add(merged[range_idx].1 - merged[range_idx].0);
            range_idx += 1;
        }
        proof {
            assert forall|j: int| range_idx <= j < merged@.len() implies #[trigger] merged@[j].1 > raw_ts by {
                if j > range_idx {
                    assert(merged@[range_idx as int].1 < merged@[j].0);
                    assert(merged@[j].0 < merged@[j].1);
                }
            }
            lemma_paused_before_split(merged@, raw_ts as int, range_idx as int);
            if range_idx > 0 {
                lemma_ranges_len_prefix_bound(merged@, range_idx as int);
            } else {
                assert(merged@.subrange(0, 0).len() == 0);
            }
            lemma_shifted_events_push(order@, ts@, merged@, p as int);
        }
        let inside = range_idx < merged.len() && raw_ts >= merged[range_idx].0 && raw_ts < merged[range_idx].1;
        proof {
            if covers(merged@, raw_ts as int) {
                let w = choose|w: int| #![trigger merged@[w]] 0 <= w < merged@.len() && merged@[w].0 <= raw_ts && raw_ts < merged@[w].1;
                if w > range_idx {
                    assert(merged@[range_idx as int].1 < merged@[w].0);
                }
                assert(w >= range_idx);
                assert(inside);
            }
            if inside {
                assert(covers(merged@, raw_ts as int)) by {
                    assert(merged@[range_idx as int].0 <= raw_ts && raw_ts < merged@[range_idx as int].1);
                }
            }
        }
        if !inside {
            r.push((idx, raw_ts.saturating_sub(shift)));
        }
        p += 1;
    }
    proof {
        assert(order@.subrange(0, order@.len() as int) =~= order@);
        assert(r@ == shifted_events(order@, ts@, merged@));
    }
    r
}

// ---------------------------------------------------------------------------
// Laws
// ---------------------------------------------------------------------------

proof fn lemma_canonical_drop_last(m: Seq<(u64, u64)>)
    requires
        is_canonical(m),
        m.len() > 0,
    ensures
        is_canonical(m.drop_last()),
        forall|i: int| 0 <= i < m.len() - 1 ==> #[trigger] m.drop_last()[i].1 < m.last().0,
        forall|t: int| covers(m.drop_last(), t) ==> covers(m, t),
{
    let d = m.drop_last();
    assert forall|i: int| 0 <= i < m.len() - 1 implies #[trigger] d[i].1 < m.last().0 by {
        assert(d[i] == m[i]);
        assert(m[i].1 < m[m.len() - 1].0);
    }
    assert forall|t: int| covers(d, t) implies covers(m, t) by {
        let w = choose|w: int| #![trigger d[w]] 0 <= w < d.len() && d[w].0 <= t && t < d[w].1;
        assert(m[w] == d[w]);
    }
}

/// Paused milliseconds before `t` never exceed `t`.
proof fn lemma_paused_before_at_most(m: Seq<(u64, u64)>, t: int)
    requires
        is_canonical(m),
        t >= 0,
    ensures
        0 <= paused_before(m, t) <= t,
    decreases m.len(),
{
    if m.len() > 0 {
        let d = m.drop_last();
        lemma_canonical_drop_last(m);
        lemma_paused_before_at_most(d, t);
        if m.last().1 <= t {
            assert forall|j: int| 0 <= j < d.len() implies #[trigger] d[j].1 <= t by {
                assert(d[j].1 < m.last().0);
            }
            lemma_paused_before_split(d, t, d.len() as int);
            assert(d.subrange(0, d.len() as int) =~= d);
            if d.len() > 0 {
                lemma_ranges_len_prefix_bound(d, d.len() as int);
                assert(d[d.len() - 1].1 < m.last().0);
            } else {
                assert(ranges_len(d) == 0);
            }
        }
    }
}

/// Between two times, the first not paused, no more time passes paused than
/// passes at all.
proof fn lemma_paused_between(m: Seq<(u64, u64)>, t1: int, t2: int)
    requires
        is_canonical(m),
        0 <= t1 <= t2,
        !covers(m, t1),
    ensures
        paused_before(m, t2) - paused_before(m, t1) <= t2 - t1,
    decreases m.len(),
{
    if m.len() > 0 {
        let d = m.drop_last();
        let last = m.last();
        lemma_canonical_drop_last(m);
        if last.1 <= t1 || last.1 > t2 {
            lemma_paused_between(d, t1, t2);
        } else {
            assert(t1 < last.0) by {
                if t1 >= last.0 {
                    assert(m[m.len() - 1] == last);
                    assert(covers(m, t1));
                }
            }
            let tp = last.0 - 1;
            assert forall|j: int| 0 <= j < d.len() implies #[trigger] d[j].1 <= tp by {
                assert(d[j].1 < last.0);
            }
            lemma_paused_between(d, t1, tp);
            lemma_paused_before_split(d, tp, d.len() as int);
            assert forall|j: int| 0 <= j < d.len() implies #[trigger] d[j].1 <= t2 by {
                assert(d[j].1 <= tp);
            }
            lemma_paused_before_split(d, t2, d.len() as int);
        }
    }
}

/// `e` is what `shifted_events` makes of one of the events `order` picks.
pub open spec fn shifted_member(order: Seq<usize>, ts: Seq<u64>, m: Seq<(u64, u64)>, e: (usize, u64)) -> bool {
    exists|q: int| #![trigger order[q]]
        0 <= q < order.len() && e == (order[q], (ts[order[q] as int] - paused_before(m, ts[order[q] as int] as int)) as u64)
            && !covers(m, ts[order[q] as int] as int)
}

proof fn lemma_shifted_events_members(order: Seq<usize>, ts: Seq<u64>, m: Seq<(u64, u64)>)
    ensures
        forall|a: int| 0 <= a < shifted_events(order, ts, m).len() ==> shifted_member(order, ts, m, #[trigger] shifted_events(order, ts, m)[a]),
    decreases order.len(),
{
    if order.len() > 0 {
        let d = order.drop_last();
        lemma_shifted_events_members(d, ts, m);
        let r = shifted_events(order, ts, m);
        let rest = shifted_events(d, ts, m);
        assert forall|a: int| 0 <= a < r.len() implies shifted_member(order, ts, m, #[trigger] r[a]) by {
            if a < rest.len() {
                assert(r[a] == rest[a]);
                assert(shifted_member(d, ts, m, rest[a]));
                let q = choose|q: int| #![trigger d[q]] 0 <= q < d.len() && rest[a] == (d[q], (ts[d[q] as int]
                    - paused_before(m, ts[d[q] as int] as int)) as u64) && !covers(m, ts[d[q] as int] as int);
                assert(order[q] == d[q]);
            } else {
                assert(order[order.len() - 1] == order.last());
            }
        }
    }
}

/// Moving events onto the recorded timeline keeps them in order: taken in
/// the order of their timestamps, the new timestamps never decrease.
pub proof fn law_shifted_events_keep_order(order: Seq<usize>, ts: Seq<u64>, m: Seq<(u64, u64)>)
    requires
        is_canonical(m),
        forall|i: int| 0 <= i < order.len() ==> #[trigger] order[i] < ts.len(),
        forall|i: int, j: int| 0 <= i <= j < order.len() ==> ts[#[trigger] order[i] as int] <= ts[#[trigger] order[j] as int],
    ensures
        forall|a: int, b: int| 0 <= a < b < shifted_events(order, ts, m).len() ==> #[trigger] shifted_events(order, ts, m)[a].1
            <= #[trigger] shifted_events(order, ts, m)[b].1,
    decreases order.len(),
{
    if order.len() > 0 {
        let d = order.drop_last();
        assert forall|i: int, j: int| 0 <= i <= j < d.len() implies ts[#[trigger] d[i] as int] <= ts[#[trigger] d[j] as int] by {
            assert(d[i] == order[i] && d[j] == order[j]);
        }
        law_shifted_events_keep_order(d, ts, m);
        lemma_shifted_events_members(d, ts, m);
        let r = shifted_events(order, ts, m);
        let rest = shifted_events(d, ts, m);
        let i_last = order.last();
        let t2 = ts[i_last as int];
        if !covers(m, t2 as int) {
            assert forall|a: int, b: int| 0 <= a < b < r.len() implies #[trigger] r[a].1 <= #[trigger] r[b].1 by {
                if b < rest.len() {
                    assert(r[a] == rest[a] && r[b] == rest[b]);
                } else {
                    assert(r[a] == rest[a]);
                    assert(shifted_member(d, ts, m, rest[a]));
                    let q = choose|q: int| #![trigger d[q]] 0 <= q < d.len() && rest[a] == (d[q], (ts[d[q] as int]
                        - paused_before(m, ts[d[q] as int] as int)) as u64) && !covers(m, ts[d[q] as int] as int);
                    let t1 = ts[d[q] as int];
                    assert(d[q] == order[q]);
                    assert(order[order.len() - 1] == i_last);
                    assert(t1 <= t2);
                    lemma_paused_between(m, t1 as int, t2 as int);
                    lemma_paused_before_at_most(m, t1 as int);
                    lemma_paused_before_at_most(m, t2 as int);
                    assert(r[b] == (i_last, (t2 - paused_before(m, t2 as int)) as u64));
                }
            }
        }
    }
}

// ---------------------------------------------------------------------------
// Recorded length
// ---------------------------------------------------------------------------

/// How many of the milliseconds `0..n` the ranges cover.
spec fn covered_count(a: Seq<(u64, u64)>, n: nat) -> nat
    decreases n,
{
    if n == 0 {
        0
    } else {
        covered_count(a, (n - 1) as nat) + if covers(a, n - 1) { 1nat } else { 0nat }
    }
}

/// Ranges in order that do not overlap (each may be empty, none inverted).
spec fn ordered_apart(a: Seq<(u64, u64)>) -> bool {
    &&& forall|i: int| 0 <= i < a.len() ==> #[trigger] a[i].0 <= a[i].1
    &&& forall|i: int, j: int| 0 <= i < j < a.len() ==> #[trigger] a[i].1 <= #[trigger] a[j].0
}

proof fn lemma_count_single(r: (u64, u64), n: nat)
    requires
        r.0 <= r.1,
    ensures
        covered_count(seq![r], n) == (if n <= r.0 { 0 } else if n <= r.1 { n - r.0 } else { r.1 - r.0 }),
    decreases n,
{
    if n > 0 {
        lemma_count_single(r, (n - 1) as nat);
        let t = n - 1;
        if r.0 <= t && t < r.1 {
            assert(covers(seq![r], t)) by {
                assert(seq![r][0] == r);
            }
        } else {
            assert(!covers(seq![r], t)) by {
                if covers(seq![r], t) {
                    let i = choose|i: int| #![trigger seq![r][i]] 0 <= i < 1 && seq![r][i].0 <= t && t < seq![r][i].1;
                    assert(seq![r][i] == r);
                }
            }
        }
    }
}

proof fn lemma_count_split(a: Seq<(u64, u64)>, n: nat)
    requires
        a.len() > 0,
        ordered_apart(a),
    ensures
        covered_count(a, n) == covered_count(a.drop_last(), n) + covered_count(seq![a.last()], n),
    decreases n,
{
    if n > 0 {
        lemma_count_split(a, (n - 1) as nat);
        let t = n - 1;
        let init = a.drop_last();
        let last = seq![a.last()];
        if covers(a, t) {
            let i = choose|i: int| #![trigger a[i]] 0 <= i < a.len() && a[i].0 <= t && t < a[i].1;
            if i == a.len() - 1 {
                assert(last[0] == a[i]);
                assert(covers(last, t));
                assert(!covers(init, t)) by {
                    if covers(init, t) {
                        let j = choose|j: int| #![trigger init[j]] 0 <= j < init.len() && init[j].0 <= t && t < init[j].1;
                        assert(init[j] == a[j]);
                        assert(a[j].1 <= a[i].0);
                    }
                }
            } else {
                assert(init[i] == a[i]);
                assert(covers(init, t));
                assert(!covers(last, t)) by {
                    if covers(last, t) {
                        let j = choose|j: int| #![trigger last[j]] 0 <= j < 1 && last[j].0 <= t && t < last[j].1;
                        assert(last[j] == a[a.len() - 1]);
                        assert(a[i].1 <= a[a.len() - 1].0);
                    }
                }
            }
        } else {
            assert(!covers(init, t)) by {
                if covers(init, t) {
                    let j = choose|j: int| #![trigger init[j]] 0 <= j < init.len() && init[j].0 <= t && t < init[j].1;
                    assert(init[j] == a[j]);
                }
            }
            assert(!covers(last, t)) by {
                if covers(last, t) {
                    let j = choose|j: int| #![trigger last[j]] 0 <= j < 1 && last[j].0 <= t && t < last[j].1;
                    assert(last[j] == a[a.len() - 1]);
                }
            }
        }
    }
}

/// Ranges in order and apart, ending by `n`, cover as many of the
/// milliseconds below `n` as their lengths add up to.
proof fn lemma_count_is_len(a: Seq<(u64, u64)>, n: nat)
    requires
        ordered_apart(a),
        forall|i: int| 0 <= i < a.len() ==> #[trigger] a[i].1 <= n,
    ensures
        covered_count(a, n) == ranges_len(a),
    decreases a.len(),
{
    if a.len() == 0 {
        lemma_count_empty(a, n);
    } else {
        let init = a.drop_last();
        assert(ordered_apart(init)) by {
            assert forall|i: int| 0 <= i < init.len() implies #[trigger] init[i].0 <= init[i].1 by {
                assert(init[i] == a[i]);
            }
            assert forall|i: int, j: int| 0 <= i < j < init.len() implies #[trigger] init[i].1 <= #[trigger] init[j].0 by {
                assert(init[i] == a[i] && init[j] == a[j]);
            }
        }
        assert forall|i: int| 0 <= i < init.len() implies #[trigger] init[i].1 <= n by {
            assert(init[i] == a[i]);
        }
        lemma_count_is_len(init, n);
        lemma_count_split(a, n);
        assert(a.last().0 <= a.last().1 <= n) by {
            assert(a.last() == a[a.len() - 1]);
        }
        lemma_count_single(a.last(), n);
    }
}

proof fn lemma_count_empty(a: Seq<(u64, u64)>, n: nat)
    requires
        a.len() == 0,
    ensures
        covered_count(a, n) == 0,
    decreases n,
{
    if n > 0 {
        lemma_count_empty(a, (n - 1) as nat);
    }
}

/// Two lists that cover complementary parts of `0..total` count up to
/// `total` together.
proof fn lemma_count_complement(keep: Seq<(u64, u64)>, cut: Seq<(u64, u64)>, total: u64, n: nat)
    requires
        n <= total,
        forall|t: int| #[trigger] covers(keep, t) == (0 <= t < total && !covers(cut, t)),
    ensures
        covered_count(keep, n) + covered_count(cut, n) == n,
    decreases n,
{
    if n > 0 {
        lemma_count_complement(keep, cut, total, (n - 1) as nat);
        assert(covers(keep, n - 1) == !covers(cut, n - 1));
    }
}

/// The pauses of a session: each inside the session, one after another.
pub open spec fn pauses_in_sequence(pauses: Seq<(u64, u64)>, start_ms: u64, end_ms: u64) -> bool {
    &&& forall|i: int| 0 <= i < pauses.len() ==> start_ms <= #[trigger] pauses[i].0 <= pauses[i].1 <= end_ms
    &&& forall|i: int, j: int| 0 <= i < j < pauses.len() ==> #[trigger] pauses[i].1 <= #[trigger] pauses[j].0
}

proof fn lemma_clipped_len(pauses: Seq<(u64, u64)>, start_ms: u64, end_ms: u64)
    requires
        pauses_in_sequence(pauses, start_ms, end_ms),
    ensures
        ranges_len(clipped_pauses(pauses, start_ms, (end_ms - start_ms) as u64)) == pause_total(pauses),
        ordered_apart(clipped_pauses(pauses, start_ms, (end_ms - start_ms) as u64)),
        forall|i: int| 0 <= i < pauses.len() ==>
            #[trigger] clipped_pauses(pauses, start_ms, (end_ms - start_ms) as u64)[i].1 <= end_ms - start_ms,
    decreases pauses.len(),
{
    let total = (end_ms - start_ms) as u64;
    let c = clipped_pauses(pauses, start_ms, total);
    assert forall|i: int| 0 <= i < pauses.len() implies #[trigger] c[i] == (
        (pauses[i].0 - start_ms) as u64,
        (pauses[i].1 - start_ms) as u64,
    ) by {
        assert(start_ms <= pauses[i].0 <= pauses[i].1 <= end_ms);
    }
    if pauses.len() > 0 {
        let init = pauses.drop_last();
        assert(pauses_in_sequence(init, start_ms, end_ms)) by {
            assert forall|i: int| 0 <= i < init.len() implies start_ms <= #[trigger] init[i].0 <= init[i].1 <= end_ms by {
                assert(init[i] == pauses[i]);
            }
            assert forall|i: int, j: int| 0 <= i < j < init.len() implies #[trigger] init[i].1 <= #[trigger] init[j].0 by {
                assert(init[i] == pauses[i] && init[j] == pauses[j]);
            }
        }
        lemma_clipped_len(init, start_ms, end_ms);
        assert(clipped_pauses(init, start_ms, total) =~= c.drop_last());
        let l = pauses.last();
        assert(l == pauses[pauses.len() - 1]);
        assert(c.last() == c[pauses.len() - 1]);
    }
}

/// When the pauses of a session come one after another inside it, as the
/// recorder produces them, the spans kept of the session last exactly as long
/// as the recorded video: the session's length minus the paused time.
pub proof fn law_recorded_spans_last_as_long_as_the_video(
    start_ms: u64,
    end_ms: u64,
    pauses: Seq<(u64, u64)>,
    keep: Seq<(u64, u64)>,
)
    requires
        start_ms <= end_ms,
        pauses_in_sequence(pauses, start_ms, end_ms),
        is_canonical(keep),
        forall|i: int| 0 <= i < keep.len() ==> #[trigger] keep[i].1 <= end_ms - start_ms,
        forall|t: int| #[trigger] covers(keep, t) == (0 <= t < end_ms - start_ms
            && !covers(clipped_pauses(pauses, start_ms, (end_ms - start_ms) as u64), t)),
    ensures
        pause_total(pauses) <= end_ms - start_ms,
        ranges_len(keep) == end_ms.saturating_sub(start_ms).saturating_sub(pause_total(pauses) as u64),
{
    let total = (end_ms - start_ms) as u64;
    let c = clipped_pauses(pauses, start_ms, total);
    lemma_clipped_len(pauses, start_ms, end_ms);
    lemma_count_is_len(c, total as nat);
    assert(ordered_apart(keep)) by {
        assert forall|i: int| 0 <= i < keep.len() implies #[trigger] keep[i].0 <= keep[i].1 by {}
        assert forall|i: int, j: int| 0 <= i < j < keep.len() implies #[trigger] keep[i].1 <= #[trigger] keep[j].0 by {}
    }
    lemma_count_is_len(keep, total as nat);
    lemma_count_complement(keep, c, total, total as nat);
}

} // verus!
